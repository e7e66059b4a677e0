//! The bucket engine driven by the batch queue: every improved vertex is
//! entered into the bucket of its new distance; a bucket is emptied in
//! batches that go through the queue, and each vertex pulled has all its
//! edges relaxed.

use vstd::prelude::*;
use crate::graph::{
    Csr,
    Graph,
    INF,
    UNIT,
    STATUS_OK,
    STATUS_CAP_EXCEEDED,
    graph_of,
    entry_status,
    check_entry,
    dist_add,
    lemma_walk_len_nonneg,
    lemma_walk_end_in_graph,
};
use crate::batch_queue::DataStructureD;
use crate::delta::{
    upper_ok, weak_tight, lemma_upper_relax, lemma_upper_start, clamp32, cap_witness,
    beyond_cap, all_tended, buckets_reached, list_reached, lemma_tend_start, lemma_tend_take,
    lemma_tend_mark, lemma_tend_relax, lemma_tend_done, lemma_tend_advance,
};
use crate::chain::{
    count_true, count_lt, lemma_count_true_le, lemma_count_true_none, lemma_count_true_mark,
    lemma_count_marks, lemma_count_lt_update, lemma_count_lt_le, lemma_reached_marked,
};
use crate::delta_choice::{DELTA_MIN, prefix_sum, lemma_prefix_sum_bound, min_of};
use crate::paths::{simple, simple_of_len, paths_ok, lemma_paths_relax, lemma_paths_start};
use crate::pivot::sat32;
use crate::stats::{SsspResultInfo, SpecPhase3Stats, SpecInvariantStats};

verus! {

/// Weights sampled for delta.
pub const SAMPLE: usize = 32;

/// Twice the mean of the first weights, the mean taken as at least
/// 0.0001; 2.0 where there is no weight.
pub open spec fn batch_delta(w: Seq<u64>) -> u64 {
    let sample = min_of(SAMPLE as int, w.len() as int);
    if sample == 0 {
        (2 * UNIT) as u64
    } else {
        let avg = prefix_sum(w, sample) / sample;
        let base = if avg < DELTA_MIN { DELTA_MIN as int } else { avg };
        if 2 * base >= INF {
            (INF - 1) as u64
        } else {
            (2 * base) as u64
        }
    }
}

/// Computes `batch_delta`.
pub fn choose_batch_delta(wts: &[u64]) -> (d: u64)
    ensures
        d == batch_delta(wts@),
        1 <= d < INF,
{
    let sample: usize = if wts.len() < SAMPLE { wts.len() } else { SAMPLE };
    if sample == 0 {
        return 2 * UNIT;
    }
    let mut s: u128 = 0;
    let mut i: usize = 0;
    while i < sample
        invariant
            i <= sample <= wts@.len(),
            sample <= 32,
            s == prefix_sum(wts@, i as int),
            s <= i * 0xffff_ffff_ffff_ffff,
        decreases sample - i,
    {
        proof {
            lemma_prefix_sum_bound(wts@, i + 1);
        }
        s = s + wts[i] as u128;
        i += 1;
    }
    let avg: u128 = s / (sample as u128);
    let base: u128 = if avg < DELTA_MIN as u128 { DELTA_MIN as u128 } else { avg };
    if 2 * base >= INF as u128 {
        INF - 1
    } else {
        (2 * base) as u64
    }
}

/// No edge of `u` can lower a distance.
pub open spec fn relaxed_all(g: Graph, dist: Seq<u64>, u: int) -> bool {
    forall|e: int| #[trigger] g.edge_from(u, e) ==> dist[g.tgt[e] as int] <= dist[u] + g.wts[e]
}

/// Vertex `u` is an entry of `list` at position `from` or later.
pub open spec fn listed_from(list: Seq<u32>, from: int, u: int) -> bool {
    exists|i: int| from <= i < list.len() && #[trigger] list[i] == u
}

/// Vertex `u` waits in the bucket of its distance, and the cursor has not passed it.
pub open spec fn waits(buckets: Seq<Vec<u32>>, dist: Seq<u64>, delta: u64, c: int, u: int) -> bool {
    let b = (dist[u] / delta) as int;
    c <= b < buckets.len() && listed_from(buckets[b]@, 0, u)
}

/// Sum of the entries.
pub open spec fn dist_sum(dist: Seq<u64>) -> int
    decreases dist.len(),
{
    if dist.len() == 0 {
        0
    } else {
        dist_sum(dist.drop_last()) + dist.last()
    }
}

/// Changing one entry changes the sum by the difference.
pub proof fn lemma_dist_sum_update(dist: Seq<u64>, v: int, nd: u64)
    requires
        0 <= v < dist.len(),
    ensures
        dist_sum(dist.update(v, nd)) == dist_sum(dist) - dist[v] + nd,
        dist_sum(dist) >= 0,
    decreases dist.len(),
{
    let d2 = dist.update(v, nd);
    if v == dist.len() - 1 {
        assert(d2.drop_last() =~= dist.drop_last());
        lemma_dist_sum_nonneg(dist.drop_last());
    } else {
        lemma_dist_sum_update(dist.drop_last(), v, nd);
        assert(d2.drop_last() =~= dist.drop_last().update(v, nd));
    }
}

/// The sum of the entries is not negative.
pub proof fn lemma_dist_sum_nonneg(dist: Seq<u64>)
    ensures
        dist_sum(dist) >= 0,
    decreases dist.len(),
{
    if dist.len() > 0 {
        lemma_dist_sum_nonneg(dist.drop_last());
    }
}

/// Where every reached vertex has its edges relaxed, every entry is a distance.
pub proof fn lemma_relaxed_is_solution(g: Graph, s: int, dist: Seq<u64>, pred: Seq<i32>)
    requires
        upper_ok(g, s, dist, pred),
        forall|u: int| 0 <= u < g.n && dist[u] < INF ==> #[trigger] relaxed_all(g, dist, u),
    ensures
        g.is_solution(s, dist),
        g.pred_tight(s, dist, pred),
{
    assert forall|v: int| 0 <= v < g.n implies g.is_dist(s, v, #[trigger] dist[v]) by {
        assert forall|p: Seq<int>| #[trigger] g.walk_to(s, v, p) implies dist[v] <= g.walk_len(
            p,
        ) by {
            lemma_below_walk(g, s, dist, pred, p);
        }
    }
    assert forall|v: int| 0 <= v < g.n && v != s && dist[v] < INF implies g.tight_at(
        dist,
        #[trigger] pred[v] as int,
        v,
    ) by {
        let u = pred[v] as int;
        assert(weak_tight(g, dist, u, v));
        let e = choose|e: int| #[trigger]
            g.edge_from(u, e) && g.tgt[e] == v && dist[u] + g.wts[e] <= dist[v];
        assert(relaxed_all(g, dist, u));
        assert(g.edge_from(u, e) && g.tgt[e] == v && dist[u] + g.wts[e] == dist[v]);
    }
}

/// Where every reached vertex has its edges relaxed, no walk is shorter than the entry of its end.
proof fn lemma_below_walk(g: Graph, s: int, dist: Seq<u64>, pred: Seq<i32>, p: Seq<int>)
    requires
        upper_ok(g, s, dist, pred),
        forall|u: int| 0 <= u < g.n && dist[u] < INF ==> #[trigger] relaxed_all(g, dist, u),
        g.is_walk(s, p),
    ensures
        dist[g.walk_end(s, p)] <= g.walk_len(p),
    decreases p.len(),
{
    if p.len() > 0 {
        let q = p.drop_last();
        let e = p.last();
        let u = g.walk_end(s, q);
        lemma_below_walk(g, s, dist, pred, q);
        lemma_walk_end_in_graph(g, s, q);
        lemma_walk_end_in_graph(g, s, p);
        lemma_walk_len_nonneg(g, q);
        if dist[u] < INF {
            assert(relaxed_all(g, dist, u));
            assert(g.edge_from(u, e));
        }
    }
}

/// `a / d` is at least `c` where `a` is at least `c * d`, and the other way round.
pub proof fn lemma_bucket_of(a: int, d: int, c: int)
    requires
        a >= 0,
        d >= 1,
        c >= 0,
    ensures
        a >= c * d <==> a / d >= c,
{
    if a >= c * d {
        assert(a / d >= c) by (nonlinear_arith)
            requires
                a >= c * d,
                d >= 1,
        ;
    }
    if a / d >= c {
        assert(a >= c * d) by (nonlinear_arith)
            requires
                a / d >= c,
                d >= 1,
                a >= 0,
                c >= 0,
        ;
    }
}

/// Counters of a run; each stops at its largest value.
#[derive(Clone, Copy, Debug, PartialEq, Eq, Structural)]
pub struct BatchCounters {
    pub pulls: u64,
    pub batches: u64,
    pub pushes: u64,
    pub relaxations: u64,
}

/// One more, unless the counter is at its largest value.
pub open spec fn bump_of(x: u64) -> u64 {
    if x == u64::MAX {
        x
    } else {
        (x + 1) as u64
    }
}

/// Computes `bump_of`.
pub fn bump(x: u64) -> (r: u64)
    ensures
        r == bump_of(x),
        r >= x,
{
    if x == u64::MAX {
        x
    } else {
        x + 1
    }
}

/// Number of entries that wait in the buckets.
pub open spec fn waiting(buckets: Seq<Vec<u32>>) -> nat
    decreases buckets.len(),
{
    if buckets.len() == 0 {
        0
    } else {
        waiting(buckets.drop_last()) + buckets.last()@.len()
    }
}

/// Buckets that differ in bucket `i` only hold as many entries more as bucket `i` does.
pub proof fn lemma_waiting_but(b0: Seq<Vec<u32>>, b1: Seq<Vec<u32>>, i: int)
    requires
        b0.len() == b1.len(),
        0 <= i < b0.len(),
        forall|x: int| 0 <= x < b0.len() && x != i ==> (#[trigger] b1[x])@.len() == b0[x]@.len(),
    ensures
        waiting(b1) + b0[i]@.len() == waiting(b0) + b1[i]@.len(),
    decreases b0.len(),
{
    let a0 = b0.drop_last();
    let a1 = b1.drop_last();
    assert forall|x: int| 0 <= x < a0.len() && x != i implies (#[trigger] a1[x])@.len() == a0[x]@.len() by {
        assert(b1[x]@.len() == b0[x]@.len());
    }
    if i < b0.len() - 1 {
        lemma_waiting_but(a0, a1, i);
        assert(b1[b0.len() - 1]@.len() == b0[b0.len() - 1]@.len());
    } else {
        lemma_waiting_grown(a0, a1);
    }
}

/// Empty buckets added behind hold nothing.
pub proof fn lemma_waiting_grown(b0: Seq<Vec<u32>>, b1: Seq<Vec<u32>>)
    requires
        b0.len() <= b1.len(),
        forall|x: int| 0 <= x < b0.len() ==> (#[trigger] b1[x])@.len() == b0[x]@.len(),
        forall|x: int| b0.len() <= x < b1.len() ==> (#[trigger] b1[x])@.len() == 0,
    ensures
        waiting(b1) == waiting(b0),
    decreases b1.len(),
{
    if b1.len() > 0 {
        let a1 = b1.drop_last();
        if b0.len() == b1.len() {
            let a0 = b0.drop_last();
            assert forall|x: int| 0 <= x < a0.len() implies (#[trigger] a1[x])@.len() == a0[x]@.len() by {
                assert(b1[x]@.len() == b0[x]@.len());
            }
            lemma_waiting_grown(a0, a1);
            assert(b1[b1.len() - 1]@.len() == b0[b1.len() - 1]@.len());
        } else {
            assert forall|x: int| 0 <= x < b0.len() implies (#[trigger] a1[x])@.len() == b0[x]@.len() by {
                assert(b1[x]@.len() == b0[x]@.len());
            }
            assert forall|x: int| b0.len() <= x < a1.len() implies (#[trigger] a1[x])@.len() == 0 by {
                assert(b1[x]@.len() == 0);
            }
            lemma_waiting_grown(b0, a1);
            assert(b1[b1.len() - 1]@.len() == 0);
        }
    }
}

/// Every entry made, the first among them, has been pulled or is still to
/// be pulled, unless the count of pushes stands at its largest value.
pub open spec fn pulls_ok(c: BatchCounters, waits: nat, rest: int) -> bool {
    c.pulls + waits + rest == c.pushes + 1 || c.pushes == u64::MAX
}

/// The counters fit together: no batch without a pull, no vertex marked
/// as pulled without a pull, a push for every relaxation, and at most one
/// vertex reached beside the source for every relaxation.
pub open spec fn counters_ok(c: BatchCounters, marks: Seq<bool>, dist: Seq<u64>) -> bool {
    &&& c.pushes == c.relaxations
    &&& count_true(marks) <= c.pulls
    &&& count_lt(dist, INF) <= c.relaxations + 1
    &&& marks.len() == dist.len()
    &&& dist.len() <= u32::MAX
}

/// Relaxes every edge of the vertex pulled at `t`, entering each improved
/// target into the bucket of its new distance.
fn expand(
    g: &Csr,
    source: u32,
    delta: u64,
    dist: &mut Vec<u64>,
    pred: &mut Vec<i32>,
    buckets: &mut Vec<Vec<u32>>,
    pulled: &Vec<u32>,
    t: usize,
    c: usize,
    cap: u64,
    counters: &mut BatchCounters,
    Ghost(before): Ghost<Seq<bool>>,
) -> (status: i32)
    requires
        upper_ok(g@, source as int, old(dist)@, old(pred)@),
        paths_ok(g@, source as int, old(dist)@),
        t < pulled@.len(),
        pulled@[t as int] < g@.n,
        before.len() == g@.n,
        all_tended(
            g@,
            old(dist)@,
            old(buckets)@,
            before,
            pulled@,
            t as int,
            Seq::empty(),
            0,
            delta,
            c as int,
        ),
        buckets_reached(old(buckets)@, old(dist)@),
        list_reached(pulled@, old(dist)@),
        counters_ok(*old(counters), before, old(dist)@),
        pulls_ok(*old(counters), waiting(old(buckets)@), pulled@.len() - t),
        delta >= 1,
        c < old(buckets)@.len() <= cap + 1,
        old(buckets)@.len() < usize::MAX,
    ensures
        status == STATUS_OK || status == STATUS_CAP_EXCEEDED,
        upper_ok(g@, source as int, final(dist)@, final(pred)@),
        paths_ok(g@, source as int, final(dist)@),
        buckets_reached(final(buckets)@, final(dist)@),
        list_reached(pulled@, final(dist)@),
        counters_ok(*final(counters), before.update(pulled@[t as int] as int, true), final(dist)@),
        old(buckets)@.len() <= final(buckets)@.len() <= cap + 1,
        final(buckets)@.len() < usize::MAX,
        dist_sum(final(dist)@) <= dist_sum(old(dist)@),
        final(buckets)@[c as int]@.len() > old(buckets)@[c as int]@.len() ==> dist_sum(final(dist)@)
            < dist_sum(old(dist)@),
        final(buckets)@[c as int]@.len() >= old(buckets)@[c as int]@.len(),
        final(counters).pulls == bump_of(old(counters).pulls),
        final(counters).batches == old(counters).batches,
        pulls_ok(*final(counters), waiting(final(buckets)@), pulled@.len() - t - 1),
        forall|b: int| 0 <= b < c ==> (#[trigger] final(buckets)@[b])@.len() == old(buckets)@[b]@.len(),
        status == STATUS_OK ==> all_tended(
            g@,
            final(dist)@,
            final(buckets)@,
            before.update(pulled@[t as int] as int, true),
            pulled@,
            t as int + 1,
            Seq::empty(),
            0,
            delta,
            c as int,
        ),
        status == STATUS_CAP_EXCEEDED ==> cap_witness(g@, source as int, delta, cap),
{
    let ghost gg = g@;
    let ghost s = source as int;
    let ghost none = Seq::<u32>::empty();
    let u: u32 = pulled[t];
    let ghost marks = before.update(u as int, true);
    let base: u64 = dist[u as usize];
    counters.pulls = bump(counters.pulls);
    proof {
        lemma_count_true_mark(before, u as int);
        lemma_count_true_le(marks);
        lemma_tend_mark(gg, dist@, buckets@, before, marks, pulled@, t as int, none, none, 0, delta, c as int);
    }
    let start: usize = g.first_edge(u);
    let end: usize = g.end_edge(u);
    let mut e: usize = start;
    while e < end
        invariant
            gg == g@,
            s == source as int,
            none == Seq::<u32>::empty(),
            marks == before.update(u as int, true),
            upper_ok(gg, s, dist@, pred@),
            paths_ok(gg, s, dist@),
            all_tended(gg, dist@, buckets@, marks, pulled@, t as int, none, 0, delta, c as int),
            buckets_reached(buckets@, dist@),
            list_reached(pulled@, dist@),
            counters_ok(*counters, marks, dist@),
            delta >= 1,
            t < pulled@.len(),
            u == pulled@[t as int],
            u < gg.n,
            base == dist@[u as int],
            start <= e <= end,
            start == gg.off[u as int],
            end == gg.off[u as int + 1],
            end <= gg.m(),
            c < old(buckets)@.len() <= buckets@.len() <= cap + 1,
            buckets@.len() < usize::MAX,
            dist_sum(dist@) <= dist_sum(old(dist)@),
            buckets@[c as int]@.len() > old(buckets)@[c as int]@.len() ==> dist_sum(dist@) < dist_sum(
                old(dist)@,
            ),
            buckets@[c as int]@.len() >= old(buckets)@[c as int]@.len(),
            counters.pulls == bump_of(old(counters).pulls),
            counters.batches == old(counters).batches,
            pulls_ok(*counters, waiting(buckets@), pulled@.len() - t - 1),
            forall|b: int| 0 <= b < c ==> (#[trigger] buckets@[b])@.len() == old(buckets)@[b]@.len(),
            forall|f: int|
                start <= f < e ==> dist@[(#[trigger] gg.tgt[f]) as int] <= dist@[u as int] + gg.wts[f],
        decreases end - e,
    {
        let v: u32 = g.targets[e];
        let w: u64 = g.weights[e];
        let nd: u64 = dist_add(base, w);
        if nd < dist[v as usize] {
            let ghost d0 = dist@;
            let ghost p0 = pred@;
            let ghost b0 = buckets@;
            proof {
                assert(gg.edge_from(u as int, e as int));
                lemma_upper_relax(gg, s, d0, p0, u as int, e as int);
                lemma_paths_relax(gg, s, d0, u as int, e as int);
                lemma_dist_sum_update(d0, v as int, nd);
                lemma_count_lt_update(d0, v as int, nd, INF);
                lemma_count_lt_le(d0.update(v as int, nd), INF);
            }
            let b: u64 = nd / delta;
            if b > cap || b >= (usize::MAX - 1) as u64 {
                proof {
                    assert(simple_of_len(gg, s, v as int, nd as int));
                    let p = choose|p: Seq<int>| #[trigger]
                        gg.walk_to(s, v as int, p) && gg.walk_len(p) == nd as int && simple(gg, s, p);
                    assert(gg.walk_to(s, v as int, p) && simple(gg, s, p) && gg.walk_len(p) < INF
                        && beyond_cap(gg.walk_len(p) as u64, delta, cap));
                }
                return STATUS_CAP_EXCEEDED;
            }
            let bi: usize = b as usize;
            dist[v as usize] = nd;
            pred[v as usize] = u as i32;
            while buckets.len() <= bi
                invariant
                    b0.len() <= buckets@.len(),
                    buckets@.len() <= bi + 1 || buckets@.len() == b0.len(),
                    bi <= cap,
                    bi < usize::MAX - 1,
                    b0.len() <= cap + 1,
                    b0.len() < usize::MAX,
                    forall|x: int| 0 <= x < b0.len() ==> buckets@[x] == b0[x],
                    forall|x: int| b0.len() <= x < buckets@.len() ==> buckets@[x]@.len() == 0,
                decreases bi + 1 - buckets@.len(),
            {
                buckets.push(Vec::new());
            }
            let ghost b1 = buckets@;
            buckets[bi].push(v);
            counters.pushes = bump(counters.pushes);
            counters.relaxations = bump(counters.relaxations);
            proof {
                let b2 = buckets@;
                lemma_waiting_grown(b0, b1);
                assert forall|x: int| 0 <= x < b1.len() && x != bi implies (#[trigger] b2[x])@.len()
                    == b1[x]@.len() by {
                    assert(b2[x] == b1[x]);
                }
                lemma_waiting_but(b1, b2, bi as int);
                assert forall|x: int, i: int|
                    0 <= x < b0.len() && 0 <= i < b0[x]@.len() implies i < b2[x]@.len()
                    && #[trigger] b2[x]@[i] == b0[x]@[i] by {
                    assert(b1[x] == b0[x]);
                    if x != bi {
                        assert(b2[x] == b1[x]);
                    }
                }
                assert(buckets_reached(b2, dist@)) by {
                    assert forall|x: int, i: int|
                        0 <= x < b2.len() && 0 <= i < b2[x]@.len() implies (#[trigger] b2[x]@[i])
                        < dist@.len() && dist@[b2[x]@[i] as int] < INF by {
                        if x < b0.len() {
                            assert(b1[x] == b0[x]);
                            if x != bi {
                                assert(b2[x] == b1[x]);
                                assert(b0[x]@[i] < d0.len() && d0[b0[x]@[i] as int] < INF);
                            } else if i < b0[x]@.len() {
                                assert(b0[x]@[i] < d0.len() && d0[b0[x]@[i] as int] < INF);
                            }
                        } else if x != bi {
                            assert(b2[x] == b1[x]);
                        }
                    }
                }
                assert(list_reached(pulled@, dist@)) by {
                    assert forall|i: int| 0 <= i < pulled@.len() implies (#[trigger] pulled@[i])
                        < dist@.len() && dist@[pulled@[i] as int] < INF by {
                        assert(d0[pulled@[i] as int] < INF);
                    }
                }
                lemma_tend_relax(
                    gg,
                    s,
                    d0,
                    p0,
                    b0,
                    b2,
                    marks,
                    pulled@,
                    t as int,
                    none,
                    0,
                    delta,
                    c as int,
                    u as int,
                    e as int,
                );
                assert forall|f: int| start <= f < e + 1 implies dist@[(
                #[trigger] gg.tgt[f]) as int] <= dist@[u as int] + gg.wts[f] by {
                    if f < e {
                        assert(d0[gg.tgt[f] as int] <= d0[u as int] + gg.wts[f]);
                    }
                }
                if bi == c {
                } else {
                    assert(b2[c as int] == b1[c as int]);
                    assert(b1[c as int] == b0[c as int]);
                }
                lemma_bucket_of(nd as int, delta as int, c as int);
                assert(bi >= c);
                assert forall|x: int| 0 <= x < c implies (#[trigger] buckets@[x])@.len() == old(
                    buckets,
                )@[x]@.len() by {
                    assert(b2[x] == b1[x]);
                    assert(b1[x] == b0[x]);
                }
            }
        }
        e += 1;
    }
    proof {
        assert forall|f: int| #[trigger] gg.edge_from(u as int, f) implies dist@[gg.tgt[f] as int]
            <= dist@[u as int] + gg.wts[f] by {
            assert(dist@[(gg.tgt[f]) as int] <= dist@[u as int] + gg.wts[f]);
        }
        lemma_tend_done(gg, dist@, buckets@, marks, pulled@, t as int, none, 0, delta, c as int);
    }
    STATUS_OK
}

/// Takes the entries of bucket `c` through the queue: what is pulled is
/// the batch, its last entry first.
fn take_batch(
    buckets: &mut Vec<Vec<u32>>,
    ds: &mut DataStructureD,
    c: usize,
    delta: u64,
    Ghost(g): Ghost<Graph>,
    Ghost(dist): Ghost<Seq<u64>>,
    Ghost(marks): Ghost<Seq<bool>>,
    Ghost(done): Ghost<Seq<u32>>,
) -> (pulled: Vec<u32>)
    requires
        all_tended(g, dist, old(buckets)@, marks, done, done.len() as int, Seq::empty(), 0, delta, c as int),
        buckets_reached(old(buckets)@, dist),
        c < old(buckets)@.len(),
        old(buckets)@[c as int]@.len() > 0,
        old(ds).wf(),
        old(ds).delivery().len() == 0,
        dist.len() == g.n,
        delta >= 1,
    ensures
        all_tended(g, dist, final(buckets)@, marks, pulled@, 0, Seq::empty(), 0, delta, c as int),
        buckets_reached(final(buckets)@, dist),
        list_reached(pulled@, dist),
        final(buckets)@.len() == old(buckets)@.len(),
        final(buckets)@[c as int]@.len() == 0,
        pulled@.len() > 0,
        final(ds).wf(),
        final(ds).delivery().len() == 0,
        waiting(final(buckets)@) + pulled@.len() == waiting(old(buckets)@),
        forall|b: int| 0 <= b < c ==> (#[trigger] final(buckets)@[b])@.len() == old(buckets)@[b]@.len(),
{
    let ghost b0 = buckets@;
    let mut batch: Vec<u32> = Vec::new();
    core::mem::swap(&mut batch, &mut buckets[c]);
    let ghost taken = batch@;
    proof {
        assert(ds.delivery() =~= Seq::<u32>::empty());
    }
    ds.batch_prepend(batch);
    let pulled = ds.pull();
    proof {
        assert(pulled@ =~= taken.reverse());
        assert(taken == b0[c as int]@);
        assert forall|b: int| 0 <= b < b0.len() && b != c implies buckets@[b] == b0[b] by {}
        assert forall|x: int| 0 <= x < b0.len() && x != c implies (#[trigger] buckets@[x])@.len()
            == b0[x]@.len() by {
            assert(buckets@[x] == b0[x]);
        }
        lemma_waiting_but(b0, buckets@, c as int);
        assert forall|i: int| 0 <= i < b0[c as int]@.len() implies listed_from(
            pulled@,
            0,
            #[trigger] b0[c as int]@[i] as int,
        ) by {
            assert(pulled@[taken.len() - 1 - i] == taken[i]);
        }
        lemma_tend_take(g, dist, b0, buckets@, marks, done, pulled@, Seq::empty(), 0, delta, c as int);
        assert forall|i: int| 0 <= i < pulled@.len() implies (#[trigger] pulled@[i]) < dist.len()
            && dist[pulled@[i] as int] < INF by {
            assert(pulled@[i] == taken[taken.len() - 1 - i]);
            assert(b0[c as int]@[taken.len() - 1 - i] < dist.len());
        }
        assert forall|x: int, i: int|
            0 <= x < buckets@.len() && 0 <= i < buckets@[x]@.len() implies (
        #[trigger] buckets@[x]@[i]) < dist.len() && dist[buckets@[x]@[i] as int] < INF by {
            if x != c {
                assert(buckets@[x] == b0[x]);
                assert(b0[x]@[i] < dist.len());
            }
        }
    }
    pulled
}

/// What the counters of a run that went through say of the distances it
/// left: a pull for every batch, a pull for every reached vertex, a push for
/// every relaxation, a relaxation for every reached vertex but one, and a
/// pull for the source and for every push.
pub open spec fn batch_stats_ok(stats: SpecPhase3Stats, dist: Seq<u64>) -> bool {
    &&& stats.pushes == sat32(stats.relaxations as int)
    &&& 1 <= stats.batches <= stats.pulls
    &&& count_lt(dist, INF) <= stats.pulls
    &&& count_lt(dist, INF) <= stats.relaxations + 1
    &&& stats.relaxations < u64::MAX ==> stats.pulls == sat32(stats.relaxations + 1)
}

/// The bucket engine driven by the batch queue. Returns `entry_status` of
/// the inputs or, where the bucket of some walk from the source is beyond
/// what can be indexed, -5; whatever is returned but 0, nothing is written. On 0 the
/// output holds the distance of every vertex and tight predecessors; the
/// counters of the run go to `stats`, each stopping at its largest value.
/// Where `check` is set, `checks` counts, for every vertex pulled from a
/// batch after the first, whether its distance is at least that of the
/// vertex pulled before it.
pub fn sssp_run_spec_phase3(
    n: u32,
    offsets: &[u32],
    targets: &[u32],
    weights: &[u64],
    source: u32,
    out_dist: &mut Vec<u64>,
    out_pred: &mut Vec<i32>,
    info: &mut SsspResultInfo,
    stats: &mut SpecPhase3Stats,
    check: bool,
    checks: &mut SpecInvariantStats,
) -> (status: i32)
    ensures
        entry_status(n, offsets, targets, weights, source, old(out_dist)@.len(), old(out_pred)@.len())
            != STATUS_OK ==> status == entry_status(
            n,
            offsets,
            targets,
            weights,
            source,
            old(out_dist)@.len(),
            old(out_pred)@.len(),
        ),
        entry_status(n, offsets, targets, weights, source, old(out_dist)@.len(), old(out_pred)@.len())
            == STATUS_OK ==> status == STATUS_OK || status == STATUS_CAP_EXCEEDED,
        status != STATUS_OK ==> {
            &&& final(out_dist)@ == old(out_dist)@
            &&& final(out_pred)@ == old(out_pred)@
            &&& *final(info) == *old(info)
            &&& *final(stats) == *old(stats)
            &&& *final(checks) == *old(checks)
        },
        status == STATUS_CAP_EXCEEDED ==> cap_witness(
            graph_of(n, offsets, targets, weights),
            source as int,
            batch_delta(weights@),
            u64::MAX,
        ),
        status == STATUS_OK ==> {
            &&& graph_of(n, offsets, targets, weights).is_solution(source as int, final(out_dist)@)
            &&& graph_of(n, offsets, targets, weights).pred_tight(
                source as int,
                final(out_dist)@,
                final(out_pred)@,
            )
            &&& final(info).relaxations == final(stats).relaxations
            &&& final(info).light_relaxations == 0
            &&& final(info).heavy_relaxations == 0
            &&& final(info).settled == n
            &&& final(info).error_code == 0
            &&& batch_stats_ok(*final(stats), final(out_dist)@)
            &&& final(checks).failures <= final(checks).checks
            &&& !check ==> final(checks).checks == 0
        },
{
    let status = check_entry(n, offsets, targets, weights, source, out_dist.len(), out_pred.len());
    if status != STATUS_OK {
        return status;
    }
    let g = Csr { n, offsets, targets, weights };
    let ghost gg = g@;
    let ghost s = source as int;
    let mut dist: Vec<u64> = vec![INF; n as usize];
    let mut pred: Vec<i32> = vec![-1i32; n as usize];
    let ghost unreached = dist@;
    dist[source as usize] = 0;
    let delta: u64 = choose_batch_delta(weights);
    let cap: u64 = u64::MAX;
    let mut first: Vec<u32> = Vec::new();
    first.push(source);
    let mut buckets: Vec<Vec<u32>> = Vec::new();
    buckets.push(first);
    let mut ds = DataStructureD::new();
    let mut counters = BatchCounters { pulls: 0, batches: 0, pushes: 0, relaxations: 0 };
    let mut seen = SpecInvariantStats { checks: 0, failures: 0 };
    let mut pulled: Vec<u32> = Vec::new();
    let mut current: usize = 0;
    let ghost mut marks: Seq<bool> = Seq::new(n as nat, |i: int| false);
    proof {
        lemma_upper_start(gg, s, dist@, pred@);
        lemma_paths_start(gg, s, dist@);
        assert(buckets@[0]@ =~= seq![source]);
        assert(buckets@[0]@[0] == source);
        lemma_tend_start(gg, s, dist@, buckets@, marks, delta);
        assert(pulled@ =~= Seq::<u32>::empty());
        lemma_count_true_none(marks);
        lemma_count_marks(marks, unreached, INF);
        lemma_count_lt_update(unreached, s, 0, INF);
        assert(dist@ =~= unreached.update(s, 0));
        assert(waiting(buckets@.drop_last()) == 0);
        assert(waiting(buckets@) == 1);
    }
    loop
        invariant
            gg == g@,
            gg == graph_of(n, offsets, targets, weights),
            s == source as int,
            n == gg.n,
            cap == u64::MAX,
            delta == batch_delta(weights@),
            delta >= 1,
            upper_ok(gg, s, dist@, pred@),
            paths_ok(gg, s, dist@),
            buckets_reached(buckets@, dist@),
            list_reached(pulled@, dist@),
            all_tended(
                gg,
                dist@,
                buckets@,
                marks,
                pulled@,
                pulled@.len() as int,
                Seq::empty(),
                0,
                delta,
                current as int,
            ),
            counters_ok(counters, marks, dist@),
            counters.batches <= counters.pulls,
            pulls_ok(counters, waiting(buckets@), 0),
            forall|b: int| 0 <= b < current ==> (#[trigger] buckets@[b])@.len() == 0,
            current < buckets@.len() <= cap + 1,
            buckets@.len() < usize::MAX,
            ds.wf(),
            ds.delivery().len() == 0,
            current > 0 ==> counters.batches >= 1,
            current == 0 ==> buckets@[0]@.len() > 0 || counters.batches >= 1,
            seen.failures <= seen.checks,
            !check ==> seen.checks == 0,
            out_dist@ == old(out_dist)@,
            out_pred@ == old(out_pred)@,
            *checks == *old(checks),
            *info == *old(info),
            *stats == *old(stats),
            entry_status(
                n,
                offsets,
                targets,
                weights,
                source,
                old(out_dist)@.len(),
                old(out_pred)@.len(),
            ) == STATUS_OK,
        decreases cap + 1 - current,
    {
        while buckets[current].len() > 0
            invariant
                gg == g@,
                gg == graph_of(n, offsets, targets, weights),
                s == source as int,
                n == gg.n,
                cap == u64::MAX,
                delta == batch_delta(weights@),
                delta >= 1,
                upper_ok(gg, s, dist@, pred@),
                paths_ok(gg, s, dist@),
                buckets_reached(buckets@, dist@),
                list_reached(pulled@, dist@),
                all_tended(
                    gg,
                    dist@,
                    buckets@,
                    marks,
                    pulled@,
                    pulled@.len() as int,
                    Seq::empty(),
                    0,
                    delta,
                    current as int,
                ),
                counters_ok(counters, marks, dist@),
                counters.batches <= counters.pulls,
                pulls_ok(counters, waiting(buckets@), 0),
                forall|b: int| 0 <= b < current ==> (#[trigger] buckets@[b])@.len() == 0,
                current < buckets@.len() <= cap + 1,
                buckets@.len() < usize::MAX,
                ds.wf(),
                ds.delivery().len() == 0,
                current > 0 ==> counters.batches >= 1,
                current == 0 ==> buckets@[0]@.len() > 0 || counters.batches >= 1,
                seen.failures <= seen.checks,
                !check ==> seen.checks == 0,
                out_dist@ == old(out_dist)@,
                out_pred@ == old(out_pred)@,
                *checks == *old(checks),
                *info == *old(info),
                *stats == *old(stats),
                entry_status(
                    n,
                    offsets,
                    targets,
                    weights,
                    source,
                    old(out_dist)@.len(),
                    old(out_pred)@.len(),
                ) == STATUS_OK,
            decreases dist_sum(dist@), buckets@[current as int]@.len(),
        {
            let ghost m0 = dist_sum(dist@);
            let ghost b0 = buckets@;
            let ghost p0 = pulled@;
            let ghost batches0 = counters.batches;
            counters.batches = bump(counters.batches);
            pulled = take_batch(
                &mut buckets,
                &mut ds,
                current,
                delta,
                Ghost(gg),
                Ghost(dist@),
                Ghost(marks),
                Ghost(p0),
            );
            proof {
                lemma_dist_sum_nonneg(dist@);
            }
            let mut t: usize = 0;
            let mut last: Option<u64> = None;
            while t < pulled.len()
                invariant
                    gg == g@,
                    gg == graph_of(n, offsets, targets, weights),
                    s == source as int,
                    n == gg.n,
                    cap == u64::MAX,
                    delta == batch_delta(weights@),
                    delta >= 1,
                    t <= pulled@.len(),
                    pulled@.len() > 0,
                    upper_ok(gg, s, dist@, pred@),
                    paths_ok(gg, s, dist@),
                    buckets_reached(buckets@, dist@),
                    list_reached(pulled@, dist@),
                    all_tended(
                        gg,
                        dist@,
                        buckets@,
                        marks,
                        pulled@,
                        t as int,
                        Seq::empty(),
                        0,
                        delta,
                        current as int,
                    ),
                    counters_ok(counters, marks, dist@),
                    current < buckets@.len() <= cap + 1,
                    buckets@.len() < usize::MAX,
                    counters.batches == bump_of(batches0),
                    batches0 <= counters.pulls,
                    pulls_ok(counters, waiting(buckets@), pulled@.len() - t),
                    forall|b: int| 0 <= b < current ==> (#[trigger] buckets@[b])@.len() == 0,
                    t > 0 ==> counters.batches <= counters.pulls,
                    dist_sum(dist@) <= m0,
                    buckets@[current as int]@.len() > 0 ==> dist_sum(dist@) < m0,
                    seen.failures <= seen.checks,
                    !check ==> seen.checks == 0,
                    out_dist@ == old(out_dist)@,
                    out_pred@ == old(out_pred)@,
                    *checks == *old(checks),
                    *info == *old(info),
                    *stats == *old(stats),
                    entry_status(
                        n,
                        offsets,
                        targets,
                        weights,
                        source,
                        old(out_dist)@.len(),
                        old(out_pred)@.len(),
                    ) == STATUS_OK,
                decreases pulled@.len() - t,
            {
                let base: u64 = dist[pulled[t] as usize];
                match last {
                    Some(before) => {
                        if check {
                            seen = count_check(seen, base >= before);
                        }
                    },
                    None => {},
                }
                last = Some(base);
                let status = expand(
                    &g,
                    source,
                    delta,
                    &mut dist,
                    &mut pred,
                    &mut buckets,
                    &pulled,
                    t,
                    current,
                    cap,
                    &mut counters,
                    Ghost(marks),
                );
                if status != STATUS_OK {
                    return status;
                }
                proof {
                    marks = marks.update(pulled@[t as int] as int, true);
                }
                t += 1;
            }
            proof {
                lemma_dist_sum_nonneg(dist@);
            }
        }
        proof {
            lemma_tend_advance(gg, dist@, buckets@, marks, pulled@, delta, current as int);
        }
        if current + 1 == buckets.len() {
            proof {
                lemma_relaxed_is_solution(gg, s, dist@, pred@);
                assert forall|x: int| 0 <= x < dist@.len() && (#[trigger] dist@[x]) < INF implies marks[x] by {
                    assert(relaxed_all(gg, dist@, x));
                }
                lemma_reached_marked(marks, dist@, INF);
                lemma_count_lt_le(dist@, INF);
                let none = Seq::<Vec<u32>>::empty();
                assert forall|x: int| 0 <= x < buckets@.len() implies (#[trigger] buckets@[x])@.len()
                    == 0 by {}
                lemma_waiting_grown(none, buckets@);
            }
            *stats = SpecPhase3Stats {
                pulls: clamp32(counters.pulls),
                batches: clamp32(counters.batches),
                pushes: clamp32(counters.pushes),
                relaxations: counters.relaxations,
            };
            *info = SsspResultInfo {
                relaxations: counters.relaxations,
                light_relaxations: 0,
                heavy_relaxations: 0,
                settled: n,
                error_code: 0,
            };
            *checks = seen;
            *out_dist = dist;
            *out_pred = pred;
            return STATUS_OK;
        }
        current += 1;
    }
}

/// The counts with one check more, and one failure more where `held` is
/// false; unchanged once the checks are at their largest value.
pub fn count_check(seen: SpecInvariantStats, held: bool) -> (r: SpecInvariantStats)
    requires
        seen.failures <= seen.checks,
    ensures
        r.failures <= r.checks,
        r.checks >= seen.checks,
        seen.checks < u64::MAX ==> r.checks == seen.checks + 1 && r.failures == seen.failures + if held {
            0int
        } else {
            1int
        },
        seen.checks == u64::MAX ==> r == seen,
{
    if seen.checks == u64::MAX {
        seen
    } else {
        SpecInvariantStats {
            checks: seen.checks + 1,
            failures: if held { seen.failures } else { seen.failures + 1 },
        }
    }
}

} // verus!

//! The delta-stepping engine: a bucket of a distance band is worked off in
//! light passes, a vertex relaxed again whenever it was lowered, then the
//! heavy edges of what it held are relaxed; an adaptive run may restart.

use vstd::prelude::*;
use crate::graph::{
    Csr, Graph, INF, UNIT, STATUS_OK, STATUS_CAP_EXCEEDED, graph_of, entry_status, check_entry,
    sat_add, dist_add, lemma_walk_extend, lemma_source_dist,
};
use crate::chain::{
    count_lt, count_true, lemma_count_true_le, lemma_count_true_none, lemma_count_true_set,
    lemma_count_true_some, lemma_count_marks, lemma_count_lt_update, lemma_count_lt_single,
    lemma_count_lt_le,
};
use crate::search::{fill_dist, fill_pred};
use crate::bucket_d::{
    relaxed_all, listed_from, waits, dist_sum, lemma_dist_sum_update, lemma_dist_sum_nonneg,
    lemma_bucket_of, lemma_relaxed_is_solution, bump,
};
use crate::delta_choice::{
    DeltaMode, MEAN_SAMPLE, QUANTILE_SAMPLE, derive_avg_weight, mean_weight, min_of, quantile_base,
    quantile_of, is_sorted_copy, scale_delta, scaled_delta,
};
use crate::paths::{simple, simple_of_len, paths_ok, lemma_paths_relax, lemma_paths_start};
use crate::pivot::sat32;
use crate::stats::{SsspResultInfo, SsspBucketStats};

verus! {

/// Edge from `u` to `v` over which `v` is no farther than its entry says.
pub open spec fn weak_tight(g: Graph, dist: Seq<u64>, u: int, v: int) -> bool {
    &&& 0 <= u < g.n
    &&& dist[u] < INF
    &&& exists|e: int|
        #[trigger] g.edge_from(u, e) && g.tgt[e] == v && dist[u] + g.wts[e] <= dist[v]
}

/// What holds of the arrays of a label-correcting run at every moment:
/// the source is at 0, every finite entry is the length of a walk, and
/// every reached vertex but the source names a predecessor that reaches it
/// within its entry.
pub open spec fn upper_ok(g: Graph, s: int, dist: Seq<u64>, pred: Seq<i32>) -> bool {
    &&& g.wf()
    &&& 0 <= s < g.n
    &&& dist.len() == g.n
    &&& pred.len() == g.n
    &&& dist[s] == 0
    &&& pred[s] == -1
    &&& forall|v: int|
        0 <= v < g.n && (#[trigger] dist[v]) < INF ==> g.walk_of_len(s, v, dist[v] as int)
    &&& forall|v: int| 0 <= v < g.n && dist[v] == INF ==> (#[trigger] pred[v]) == -1
    &&& forall|v: int|
        0 <= v < g.n && v != s && dist[v] < INF ==> weak_tight(g, dist, (#[trigger] pred[v]) as int, v)
}

/// The arrays before a run: nothing but the source is reached.
pub proof fn lemma_upper_start(g: Graph, s: int, dist: Seq<u64>, pred: Seq<i32>)
    requires
        g.wf(),
        0 <= s < g.n,
        dist.len() == g.n,
        pred.len() == g.n,
        forall|v: int| 0 <= v < g.n ==> dist[v] == if v == s { 0u64 } else { INF },
        forall|v: int| 0 <= v < g.n ==> pred[v] == -1,
    ensures
        upper_ok(g, s, dist, pred),
{
    lemma_source_dist(g, s);
}

/// An accepted relaxation keeps the arrays sound.
pub proof fn lemma_upper_relax(g: Graph, s: int, dist: Seq<u64>, pred: Seq<i32>, u: int, e: int)
    requires
        upper_ok(g, s, dist, pred),
        g.edge_from(u, e),
        dist[u] + g.wts[e] < dist[g.tgt[e] as int],
    ensures
        upper_ok(
            g,
            s,
            dist.update(g.tgt[e] as int, (dist[u] + g.wts[e]) as u64),
            pred.update(g.tgt[e] as int, u as i32),
        ),
        g.tgt[e] as int != s,
        g.tgt[e] as int != u,
{
    let v = g.tgt[e] as int;
    let nd = (dist[u] + g.wts[e]) as u64;
    let d2 = dist.update(v, nd);
    let p2 = pred.update(v, u as i32);
    assert(g.off[u + 1] <= g.off[g.n as int]);
    assert(0 <= v < g.n);
    assert(dist[u] < INF);
    let pu = choose|p: Seq<int>| #[trigger] g.walk_to(s, u, p) && g.walk_len(p) == dist[u] as int;
    lemma_walk_extend(g, s, pu, e);
    assert(g.walk_to(s, v, pu.push(e)));
    assert forall|x: int| 0 <= x < g.n && (#[trigger] d2[x]) < INF implies g.walk_of_len(
        s,
        x,
        d2[x] as int,
    ) by {
        if x != v {
            assert(dist[x] < INF);
        }
    }
    assert forall|x: int| 0 <= x < g.n && x != s && d2[x] < INF implies weak_tight(
        g,
        d2,
        (#[trigger] p2[x]) as int,
        x,
    ) by {
        if x == v {
            assert(g.edge_from(u, e) && g.tgt[e] == v && d2[u] + g.wts[e] <= d2[v]);
        } else {
            let q = pred[x] as int;
            assert(weak_tight(g, dist, q, x));
            let f = choose|f: int| #[trigger]
                g.edge_from(q, f) && g.tgt[f] == x && dist[q] + g.wts[f] <= dist[x];
            assert(g.edge_from(q, f) && g.tgt[f] == x && d2[q] + g.wts[f] <= d2[x]);
        }
    }
}

/// Edge `e` is of the class relaxed: a light edge in the light phase, a heavy one otherwise.
pub open spec fn in_class(g: Graph, delta: u64, light_phase: bool, e: int) -> bool {
    (g.wts[e] <= delta) == light_phase
}

/// The bucket of a distance lies beyond the cap, or beyond what can be indexed.
pub open spec fn beyond_cap(nd: u64, delta: u64, cap: u64) -> bool {
    nd / delta > cap || nd / delta >= usize::MAX - 1
}

/// Some walk from the source that passes no vertex twice is so long that
/// the bucket of its length lies beyond the cap.
pub open spec fn cap_witness(g: Graph, s: int, delta: u64, cap: u64) -> bool {
    exists|v: int, p: Seq<int>|
        #[trigger] g.walk_to(s, v, p) && simple(g, s, p) && g.walk_len(p) < INF && beyond_cap(
            g.walk_len(p) as u64,
            delta,
            cap,
        )
}

/// The entries of bucket `b`, none where there is no such bucket.
pub open spec fn bucket_of(buckets: Seq<Vec<u32>>, b: int) -> Seq<u32> {
    if 0 <= b < buckets.len() {
        buckets[b]@
    } else {
        Seq::empty()
    }
}

/// What relaxing edges of `u` has done to vertex `x`: its distance has not
/// risen; where it is the same, so is the predecessor; where it fell, it
/// is the distance of `u` plus the weight of an edge of the class from `u`
/// to `x`, `u` is the predecessor, and `x` is marked as waiting in a bucket.
pub open spec fn lowered_from(
    g: Graph,
    u: int,
    delta: u64,
    light_phase: bool,
    d0: Seq<u64>,
    p0: Seq<i32>,
    d1: Seq<u64>,
    p1: Seq<i32>,
    x: int,
) -> bool {
    &&& d1[x] <= d0[x]
    &&& d1[x] == d0[x] ==> p1[x] == p0[x]
    &&& d1[x] < d0[x] ==> p1[x] == u && exists|e: int|
        #[trigger] g.edge_from(u, e) && in_class(g, delta, light_phase, e) && g.tgt[e] == x && d1[x]
            == d0[u] + g.wts[e]
}

/// Vertex `u` is looked after: its edges are relaxed, or it waits in its
/// bucket or in the frontier, or only its heavy edges are still to relax;
/// and it is settled, or waits in its bucket or in the frontier.
pub open spec fn tended(
    g: Graph,
    dist: Seq<u64>,
    buckets: Seq<Vec<u32>>,
    settled: Seq<bool>,
    frontier: Seq<u32>,
    t: int,
    lset: Seq<u32>,
    h: int,
    delta: u64,
    c: int,
    u: int,
) -> bool {
    &&& {
        ||| relaxed_all(g, dist, u)
        ||| waits(buckets, dist, delta, c, u)
        ||| (listed_from(frontier, t, u) && dist[u] >= c * delta)
        ||| (class_ok(g, dist, delta, true, u) && listed_from(lset, h, u) && dist[u] >= c * delta)
    }
    &&& {
        ||| settled[u]
        ||| waits(buckets, dist, delta, c, u)
        ||| listed_from(frontier, t, u)
    }
}

/// Every reached vertex is looked after.
pub open spec fn all_tended(
    g: Graph,
    dist: Seq<u64>,
    buckets: Seq<Vec<u32>>,
    settled: Seq<bool>,
    frontier: Seq<u32>,
    t: int,
    lset: Seq<u32>,
    h: int,
    delta: u64,
    c: int,
) -> bool {
    forall|u: int|
        0 <= u < g.n && dist[u] < INF ==> #[trigger] tended(
            g,
            dist,
            buckets,
            settled,
            frontier,
            t,
            lset,
            h,
            delta,
            c,
            u,
        )
}

/// Buckets, marks, lists and counters of a delta-stepping run.
pub struct BucketState {
    /// The buckets by distance band.
    pub buckets: Vec<Vec<u32>>,
    /// Marks the vertices entered into a bucket and not taken since.
    pub in_bucket: Vec<bool>,
    /// Marks the vertices settled.
    pub settled: Vec<bool>,
    /// Marks the vertices in `light_set`.
    pub in_set: Vec<bool>,
    /// What was taken from the bucket at the cursor in the pass under way.
    pub frontier: Vec<u32>,
    /// Entries of `frontier` done with.
    pub taken: usize,
    /// The vertices taken from the bucket at the cursor, whose heavy edges are still to relax.
    pub light_set: Vec<u32>,
    /// Entries of `light_set` done with.
    pub heavy_done: usize,
    /// The bucket being processed.
    pub cursor: usize,
    /// Vertices settled.
    pub settled_count: u32,
    /// Relaxations over light edges; stops at its largest value.
    pub light: u64,
    /// Relaxations over heavy edges; stops at its largest value.
    pub heavy: u64,
}

impl BucketState {
    /// The shape of the state for the arrays of a graph and a cap on the bucket index.
    pub open spec fn ok(&self, dist: Seq<u64>, cap: u64) -> bool {
        &&& self.in_bucket@.len() == dist.len()
        &&& self.settled@.len() == dist.len()
        &&& self.in_set@.len() == dist.len()
        &&& buckets_reached(self.buckets@, dist)
        &&& list_reached(self.frontier@, dist)
        &&& list_reached(self.light_set@, dist)
        &&& forall|x: int| 0 <= x < dist.len() && #[trigger] self.settled@[x] ==> dist[x] < INF
        &&& forall|x: int|
            0 <= x < dist.len() && #[trigger] self.in_set@[x] ==> listed_from(self.light_set@, 0, x)
        &&& self.taken <= self.frontier@.len()
        &&& self.heavy_done <= self.light_set@.len()
        &&& self.cursor < self.buckets@.len() <= cap + 1
        &&& self.buckets@.len() < usize::MAX
        &&& self.settled_count == count_true(self.settled@)
    }

    /// Every reached vertex is looked after.
    pub open spec fn tends(&self, g: Graph, dist: Seq<u64>, delta: u64) -> bool {
        all_tended(
            g,
            dist,
            self.buckets@,
            self.settled@,
            self.frontier@,
            self.taken as int,
            self.light_set@,
            self.heavy_done as int,
            delta,
            self.cursor as int,
        )
    }

    /// Nothing but the buckets, the waiting marks and the counters differs from `other`.
    pub open spec fn same_lists(&self, other: &BucketState) -> bool {
        &&& self.settled@ == other.settled@
        &&& self.in_set@ == other.in_set@
        &&& self.frontier@ == other.frontier@
        &&& self.taken == other.taken
        &&& self.light_set@ == other.light_set@
        &&& self.heavy_done == other.heavy_done
        &&& self.cursor == other.cursor
        &&& self.settled_count == other.settled_count
    }
}

/// Relaxes the edges of `u` of one class: the light ones, or the heavy
/// ones. Every target lowered is entered into the bucket of its new
/// distance. Returns the status and whether a vertex was entered into
/// bucket `current`.
pub fn relax_from(
    g: &Csr,
    source: u32,
    u: u32,
    light_phase: bool,
    delta: u64,
    dist: &mut Vec<u64>,
    pred: &mut Vec<i32>,
    st: &mut BucketState,
    current: usize,
    cap: u64,
) -> (r: (i32, bool))
    requires
        upper_ok(g@, source as int, old(dist)@, old(pred)@),
        paths_ok(g@, source as int, old(dist)@),
        old(st).ok(old(dist)@, cap),
        old(st).tends(g@, old(dist)@, delta),
        u < g.n,
        delta >= 1,
        current == old(st).cursor,
    ensures
        r.0 == STATUS_OK || r.0 == STATUS_CAP_EXCEEDED,
        upper_ok(g@, source as int, final(dist)@, final(pred)@),
        paths_ok(g@, source as int, final(dist)@),
        final(st).ok(final(dist)@, cap),
        final(st).same_lists(old(st)),
        final(dist)@[u as int] == old(dist)@[u as int],
        forall|x: int|
            0 <= x < g@.n ==> #[trigger] lowered_from(
                g@,
                u as int,
                delta,
                light_phase,
                old(dist)@,
                old(pred)@,
                final(dist)@,
                final(pred)@,
                x,
            ),
        forall|b: int| #[trigger] grown(old(st).buckets@, final(st).buckets@, b),
        final(st).buckets@.len() >= old(st).buckets@.len(),
        r.1 <==> final(st).buckets@[current as int]@.len() > old(st).buckets@[current as int]@.len(),
        dist_sum(final(dist)@) <= dist_sum(old(dist)@),
        r.1 ==> dist_sum(final(dist)@) < dist_sum(old(dist)@),
        final(st).light >= old(st).light,
        final(st).heavy >= old(st).heavy,
        light_phase ==> final(st).heavy == old(st).heavy,
        !light_phase ==> final(st).light == old(st).light,
        dist_sum(final(dist)@) == dist_sum(old(dist)@) ==> final(dist)@ == old(dist)@
            && final(st).light == old(st).light && final(st).heavy == old(st).heavy,
        r.0 == STATUS_OK ==> final(st).tends(g@, final(dist)@, delta) && class_ok(
            g@,
            final(dist)@,
            delta,
            light_phase,
            u as int,
        ),
        r.0 == STATUS_CAP_EXCEEDED ==> cap_witness(g@, source as int, delta, cap),
        reach_ok(old(dist)@, delta, cap) ==> reach_ok(final(dist)@, delta, cap),
        counted_for(old(dist)@, old(st).light, old(st).heavy) ==> counted_for(
            final(dist)@,
            final(st).light,
            final(st).heavy,
        ),
{
    let ghost gg = g@;
    let ghost s = source as int;
    let ghost d0 = dist@;
    let ghost p0 = pred@;
    let ghost b_old = st.buckets@;
    let start: usize = g.first_edge(u);
    let end: usize = g.end_edge(u);
    let base: u64 = dist[u as usize];
    let mut requested: bool = false;
    let mut e: usize = start;
    proof {
        assert forall|x: int| 0 <= x < gg.n implies #[trigger] lowered_from(
            gg,
            u as int,
            delta,
            light_phase,
            d0,
            p0,
            dist@,
            pred@,
            x,
        ) by {}
        assert forall|b: int| #[trigger] grown(b_old, st.buckets@, b) by {
            assert(bucket_of(st.buckets@, b).take(bucket_of(b_old, b).len() as int) =~= bucket_of(
                b_old,
                b,
            ));
        }
    }
    while e < end
        invariant
            gg == g@,
            s == source as int,
            d0 == old(dist)@,
            p0 == old(pred)@,
            b_old == old(st).buckets@,
            d0.len() == gg.n,
            current < b_old.len(),
            upper_ok(gg, s, dist@, pred@),
            paths_ok(gg, s, dist@),
            st.ok(dist@, cap),
            st.tends(gg, dist@, delta),
            st.same_lists(old(st)),
            current == st.cursor,
            u < gg.n,
            delta >= 1,
            start <= e <= end,
            start == gg.off[u as int],
            end == gg.off[u as int + 1],
            end <= gg.m(),
            base == dist@[u as int],
            base == d0[u as int],
            forall|x: int|
                0 <= x < gg.n ==> #[trigger] lowered_from(
                    gg,
                    u as int,
                    delta,
                    light_phase,
                    d0,
                    p0,
                    dist@,
                    pred@,
                    x,
                ),
            forall|b: int| #[trigger] grown(b_old, st.buckets@, b),
            st.buckets@.len() >= b_old.len(),
            requested <==> st.buckets@[current as int]@.len() > b_old[current as int]@.len(),
            dist_sum(dist@) <= dist_sum(d0),
            requested ==> dist_sum(dist@) < dist_sum(d0),
            st.light >= old(st).light,
            st.heavy >= old(st).heavy,
            light_phase ==> st.heavy == old(st).heavy,
            !light_phase ==> st.light == old(st).light,
            dist_sum(dist@) == dist_sum(d0) ==> dist@ == d0 && st.light == old(st).light
                && st.heavy == old(st).heavy,
            forall|f: int|
                start <= f < e ==> #[trigger] edge_done(gg, delta, light_phase, dist@, base, f),
            reach_ok(d0, delta, cap) ==> reach_ok(dist@, delta, cap),
            counted_for(d0, old(st).light, old(st).heavy) ==> counted_for(dist@, st.light, st.heavy),
        decreases end - e,
    {
        let v: u32 = g.targets[e];
        let w: u64 = g.weights[e];
        let ghost d1 = dist@;
        let ghost p1 = pred@;
        let ghost b1 = st.buckets@;
        let ghost l1 = st.light;
        let ghost h1 = st.heavy;
        if (w <= delta) == light_phase {
            let nd: u64 = dist_add(base, w);
            if nd < dist[v as usize] {
                proof {
                    assert(gg.edge_from(u as int, e as int));
                    assert(in_class(gg, delta, light_phase, e as int));
                    lemma_upper_relax(gg, s, d1, p1, u as int, e as int);
                    lemma_paths_relax(gg, s, d1, u as int, e as int);
                    lemma_dist_sum_update(d1, v as int, nd);
                    lemma_count_lt_update(d1, v as int, nd, INF);
                    assert(lowered_from(gg, u as int, delta, light_phase, d0, p0, d1, p1, v as int));
                }
                let b: u64 = nd / delta;
                if b > cap || b >= (usize::MAX - 1) as u64 {
                    proof {
                        assert(simple_of_len(gg, s, v as int, nd as int));
                        let p = choose|p: Seq<int>| #[trigger]
                            gg.walk_to(s, v as int, p) && gg.walk_len(p) == nd as int && simple(
                                gg,
                                s,
                                p,
                            );
                        assert(gg.walk_to(s, v as int, p) && simple(gg, s, p) && gg.walk_len(p) < INF
                            && beyond_cap(gg.walk_len(p) as u64, delta, cap));
                    }
                    return (STATUS_CAP_EXCEEDED, requested);
                }
                let bi: usize = b as usize;
                dist[v as usize] = nd;
                pred[v as usize] = u as i32;
                while st.buckets.len() <= bi
                    invariant
                        b1.len() <= st.buckets@.len(),
                        st.buckets@.len() <= bi + 1 || st.buckets@.len() == b1.len(),
                        bi <= cap,
                        bi < usize::MAX - 1,
                        b1.len() <= cap + 1,
                        b1.len() < usize::MAX,
                        forall|x: int| 0 <= x < b1.len() ==> st.buckets@[x] == b1[x],
                        forall|x: int| b1.len() <= x < st.buckets@.len() ==> st.buckets@[x]@.len() == 0,
                        st.same_lists(old(st)),
                        st.in_bucket@.len() == dist@.len(),
                        st.light == l1,
                        st.heavy == h1,
                        st.light >= old(st).light,
                        st.heavy >= old(st).heavy,
                        light_phase ==> st.heavy == old(st).heavy,
                        !light_phase ==> st.light == old(st).light,
                    decreases bi + 1 - st.buckets@.len(),
                {
                    st.buckets.push(Vec::new());
                }
                let ghost b2 = st.buckets@;
                st.buckets[bi].push(v);
                st.in_bucket[v as usize] = true;
                if light_phase {
                    st.light = bump(st.light);
                } else {
                    st.heavy = bump(st.heavy);
                }
                if bi == current {
                    requested = true;
                }
                proof {
                    let b3 = st.buckets@;
                    assert forall|x: int, i: int|
                        0 <= x < b1.len() && 0 <= i < b1[x]@.len() implies i < b3[x]@.len()
                        && #[trigger] b3[x]@[i] == b1[x]@[i] by {
                        assert(b2[x] == b1[x]);
                        if x != bi {
                            assert(b3[x] == b2[x]);
                        }
                    }
                    assert(buckets_reached(b3, dist@)) by {
                        assert forall|x: int, i: int|
                            0 <= x < b3.len() && 0 <= i < b3[x]@.len() implies (#[trigger] b3[x]@[i])
                            < dist@.len() && dist@[b3[x]@[i] as int] < INF by {
                            if x < b1.len() {
                                assert(b2[x] == b1[x]);
                                if x != bi {
                                    assert(b3[x] == b2[x]);
                                    assert(b1[x]@[i] < d1.len() && d1[b1[x]@[i] as int] < INF);
                                } else if i < b1[x]@.len() {
                                    assert(b1[x]@[i] < d1.len() && d1[b1[x]@[i] as int] < INF);
                                }
                            } else if x != bi {
                                assert(b3[x] == b2[x]);
                            }
                        }
                    }
                    assert(list_reached(st.frontier@, dist@)) by {
                        assert forall|i: int| 0 <= i < st.frontier@.len() implies (
                        #[trigger] st.frontier@[i]) < dist@.len() && dist@[st.frontier@[i] as int]
                            < INF by {
                            assert(d1[st.frontier@[i] as int] < INF);
                        }
                    }
                    assert(list_reached(st.light_set@, dist@)) by {
                        assert forall|i: int| 0 <= i < st.light_set@.len() implies (
                        #[trigger] st.light_set@[i]) < dist@.len() && dist@[st.light_set@[i] as int]
                            < INF by {
                            assert(d1[st.light_set@[i] as int] < INF);
                        }
                    }
                    lemma_tend_relax(
                        gg,
                        s,
                        d1,
                        p1,
                        b1,
                        b3,
                        st.settled@,
                        st.frontier@,
                        st.taken as int,
                        st.light_set@,
                        st.heavy_done as int,
                        delta,
                        current as int,
                        u as int,
                        e as int,
                    );
                    assert forall|x: int| 0 <= x < gg.n implies #[trigger] lowered_from(
                        gg,
                        u as int,
                        delta,
                        light_phase,
                        d0,
                        p0,
                        dist@,
                        pred@,
                        x,
                    ) by {
                        assert(lowered_from(gg, u as int, delta, light_phase, d0, p0, d1, p1, x));
                        if x == v as int {
                            assert(gg.edge_from(u as int, e as int) && in_class(
                                gg,
                                delta,
                                light_phase,
                                e as int,
                            ) && gg.tgt[e as int] == x && dist@[x] == d0[u as int] + gg.wts[e as int]);
                        }
                    }
                    assert forall|c: int| #[trigger] grown(b_old, b3, c) by {
                        assert(grown(b_old, b1, c));
                        let k = bucket_of(b_old, c).len() as int;
                        if 0 <= c < b1.len() {
                            assert(b2[c] == b1[c]);
                            if c != bi {
                                assert(b3[c] == b2[c]);
                            }
                        } else if 0 <= c < b3.len() && c != bi {
                            assert(b3[c] == b2[c]);
                        }
                        assert(bucket_of(b3, c).take(k) =~= bucket_of(b1, c).take(k));
                    }
                    assert(grown(b_old, b1, current as int));
                    assert(dist@ =~= d1.update(v as int, nd));
                    if counted_for(d0, old(st).light, old(st).heavy) {
                        assert(counted_for(d1, l1, h1));
                        assert(counted_for(dist@, st.light, st.heavy));
                    }
                    if reach_ok(d0, delta, cap) {
                        assert forall|x: int| 0 <= x < dist@.len() && (#[trigger] dist@[x])
                            < INF implies !beyond_cap(dist@[x], delta, cap) by {
                            if x != v as int {
                                assert(d1[x] < INF);
                            }
                        }
                    }
                    assert(b2[current as int] == b1[current as int]);
                    if bi != current {
                        assert(b3[current as int] == b2[current as int]);
                    }
                }
            }
        }
        proof {
            assert forall|f: int| start <= f < e + 1 implies #[trigger] edge_done(
                gg,
                delta,
                light_phase,
                dist@,
                base,
                f,
            ) by {
                if f < e {
                    assert(edge_done(gg, delta, light_phase, d1, base, f));
                    assert(lowered_from(
                        gg,
                        u as int,
                        delta,
                        light_phase,
                        d0,
                        p0,
                        dist@,
                        pred@,
                        gg.tgt[f] as int,
                    ));
                    assert(dist@[gg.tgt[f] as int] <= d1[gg.tgt[f] as int]);
                }
            }
        }
        e += 1;
    }
    proof {
        assert forall|f: int|
            #[trigger] gg.edge_from(u as int, f) && in_class(
                gg,
                delta,
                light_phase,
                f,
            ) implies dist@[gg.tgt[f] as int] <= dist@[u as int] + gg.wts[f] by {
            assert(edge_done(gg, delta, light_phase, dist@, base, f));
        }
    }
    (STATUS_OK, requested)
}

/// No edge of `u` of the class can lower a distance.
pub open spec fn class_ok(g: Graph, dist: Seq<u64>, delta: u64, light_phase: bool, u: int) -> bool {
    forall|e: int|
        #[trigger] g.edge_from(u, e) && in_class(g, delta, light_phase, e) ==> dist[g.tgt[e] as int]
            <= dist[u] + g.wts[e]
}

/// Bucket `b` holds what it held, and perhaps more behind it.
pub open spec fn grown(before: Seq<Vec<u32>>, after: Seq<Vec<u32>>, b: int) -> bool {
    &&& bucket_of(before, b).len() <= bucket_of(after, b).len()
    &&& bucket_of(after, b).take(bucket_of(before, b).len() as int) == bucket_of(before, b)
}

/// Edge `f` of the class, relaxed from `base`, cannot lower its target.
pub open spec fn edge_done(
    g: Graph,
    delta: u64,
    light_phase: bool,
    dist: Seq<u64>,
    base: u64,
    f: int,
) -> bool {
    in_class(g, delta, light_phase, f) ==> dist[g.tgt[f] as int] <= base + g.wts[f]
}

/// Every entry of the list is a reached vertex.
pub open spec fn list_reached(list: Seq<u32>, dist: Seq<u64>) -> bool {
    forall|i: int| 0 <= i < list.len() ==> (#[trigger] list[i]) < dist.len() && dist[list[i] as int] < INF
}

/// Every entry of every bucket is a reached vertex.
pub open spec fn buckets_reached(buckets: Seq<Vec<u32>>, dist: Seq<u64>) -> bool {
    forall|b: int, i: int|
        0 <= b < buckets.len() && 0 <= i < buckets[b]@.len() ==> (#[trigger] buckets[b]@[i])
            < dist.len() && dist[buckets[b]@[i] as int] < INF
}

/// An edge is of one class or the other: a vertex with both classes relaxed has all edges relaxed.
pub proof fn lemma_classes(g: Graph, dist: Seq<u64>, delta: u64, u: int)
    requires
        class_ok(g, dist, delta, true, u),
        class_ok(g, dist, delta, false, u),
    ensures
        relaxed_all(g, dist, u),
{
    assert forall|e: int| #[trigger] g.edge_from(u, e) implies dist[g.tgt[e] as int] <= dist[u]
        + g.wts[e] by {
        if g.wts[e] <= delta {
            assert(in_class(g, delta, true, e));
        } else {
            assert(in_class(g, delta, false, e));
        }
    }
}

/// At the start the source waits in bucket 0.
pub proof fn lemma_tend_start(g: Graph, s: int, dist: Seq<u64>, buckets: Seq<Vec<u32>>, settled: Seq<bool>, delta: u64)
    requires
        0 <= s < g.n,
        g.n <= u32::MAX,
        dist.len() == g.n,
        delta >= 1,
        forall|v: int| 0 <= v < g.n ==> dist[v] == if v == s { 0u64 } else { INF },
        buckets.len() == 1,
        buckets[0]@ == seq![s as u32],
    ensures
        all_tended(g, dist, buckets, settled, Seq::empty(), 0, Seq::empty(), 0, delta, 0),
{
    assert forall|u: int| 0 <= u < g.n && dist[u] < INF implies #[trigger] tended(
        g,
        dist,
        buckets,
        settled,
        Seq::empty(),
        0,
        Seq::empty(),
        0,
        delta,
        0,
        u,
    ) by {
        assert(u == s);
        assert(buckets[0]@[0] == s);
        assert(waits(buckets, dist, delta, 0, u));
    }
}

/// Taking the entries of the bucket at the cursor as the frontier keeps every vertex looked after.
pub proof fn lemma_tend_take(
    g: Graph,
    dist: Seq<u64>,
    b0: Seq<Vec<u32>>,
    b1: Seq<Vec<u32>>,
    settled: Seq<bool>,
    f0: Seq<u32>,
    f1: Seq<u32>,
    lset: Seq<u32>,
    h: int,
    delta: u64,
    c: int,
)
    requires
        all_tended(g, dist, b0, settled, f0, f0.len() as int, lset, h, delta, c),
        delta >= 1,
        0 <= c < b0.len(),
        b1.len() == b0.len(),
        b1[c]@.len() == 0,
        forall|b: int| 0 <= b < b0.len() && b != c ==> b1[b] == b0[b],
        forall|i: int| 0 <= i < b0[c]@.len() ==> listed_from(f1, 0, #[trigger] b0[c]@[i] as int),
    ensures
        all_tended(g, dist, b1, settled, f1, 0, lset, h, delta, c),
{
    assert forall|u: int| 0 <= u < g.n && dist[u] < INF implies #[trigger] tended(
        g,
        dist,
        b1,
        settled,
        f1,
        0,
        lset,
        h,
        delta,
        c,
        u,
    ) by {
        assert(tended(g, dist, b0, settled, f0, f0.len() as int, lset, h, delta, c, u));
        if waits(b0, dist, delta, c, u) {
            let b = (dist[u] / delta) as int;
            if b == c {
                let i = choose|i: int| 0 <= i < b0[c]@.len() && #[trigger] b0[c]@[i] == u;
                assert(listed_from(f1, 0, b0[c]@[i] as int));
                lemma_bucket_of(dist[u] as int, delta as int, c);
            } else {
                assert(b1[b] == b0[b]);
            }
        }
    }
}

/// Settling a vertex, or adding one to the list for the heavy phase, keeps every vertex looked after.
pub proof fn lemma_tend_mark(
    g: Graph,
    dist: Seq<u64>,
    buckets: Seq<Vec<u32>>,
    s0: Seq<bool>,
    s1: Seq<bool>,
    frontier: Seq<u32>,
    t: int,
    l0: Seq<u32>,
    l1: Seq<u32>,
    h: int,
    delta: u64,
    c: int,
)
    requires
        all_tended(g, dist, buckets, s0, frontier, t, l0, h, delta, c),
        dist.len() == g.n,
        h >= 0,
        s0.len() == s1.len(),
        s0.len() == g.n,
        forall|x: int| 0 <= x < s0.len() && s0[x] ==> s1[x],
        l0.len() <= l1.len(),
        forall|i: int| 0 <= i < l0.len() ==> l1[i] == l0[i],
    ensures
        all_tended(g, dist, buckets, s1, frontier, t, l1, h, delta, c),
{
    assert forall|u: int| 0 <= u < g.n && dist[u] < INF implies #[trigger] tended(
        g,
        dist,
        buckets,
        s1,
        frontier,
        t,
        l1,
        h,
        delta,
        c,
        u,
    ) by {
        assert(tended(g, dist, buckets, s0, frontier, t, l0, h, delta, c, u));
        if listed_from(l0, h, u) {
            let i = choose|i: int| h <= i < l0.len() && #[trigger] l0[i] == u;
            assert(l1[i] == u);
        }
    }
}

/// An accepted relaxation over an edge of `u`, with the target entered
/// into the bucket of its new distance, keeps every vertex looked after;
/// and that bucket is not behind the cursor.
pub proof fn lemma_tend_relax(
    g: Graph,
    s: int,
    dist: Seq<u64>,
    pred: Seq<i32>,
    b0: Seq<Vec<u32>>,
    b1: Seq<Vec<u32>>,
    settled: Seq<bool>,
    frontier: Seq<u32>,
    t: int,
    lset: Seq<u32>,
    h: int,
    delta: u64,
    c: int,
    u: int,
    e: int,
)
    requires
        upper_ok(g, s, dist, pred),
        all_tended(g, dist, b0, settled, frontier, t, lset, h, delta, c),
        delta >= 1,
        c >= 0,
        g.edge_from(u, e),
        dist[u] + g.wts[e] < dist[g.tgt[e] as int],
        b1.len() >= b0.len(),
        forall|b: int, i: int|
            0 <= b < b0.len() && 0 <= i < b0[b]@.len() ==> i < b1[b]@.len() && #[trigger] b1[b]@[i]
                == b0[b]@[i],
        ({
            let nb = ((dist[u] + g.wts[e]) / (delta as int)) as int;
            nb < b1.len() && b1[nb]@.len() > 0 && b1[nb]@.last() == g.tgt[e]
        }),
    ensures
        all_tended(
            g,
            dist.update(g.tgt[e] as int, (dist[u] + g.wts[e]) as u64),
            b1,
            settled,
            frontier,
            t,
            lset,
            h,
            delta,
            c,
        ),
        (dist[u] + g.wts[e]) / (delta as int) >= c,
{
    let v = g.tgt[e] as int;
    let nd = (dist[u] + g.wts[e]) as u64;
    let d2 = dist.update(v, nd);
    let nb = (nd / delta) as int;
    assert(g.off[u + 1] <= g.off[g.n as int]);
    assert(0 <= v < g.n);
    assert(dist[u] < INF);
    assert(tended(g, dist, b0, settled, frontier, t, lset, h, delta, c, u));
    assert(!relaxed_all(g, dist, u));
    assert(dist[u] >= c * delta) by {
        if waits(b0, dist, delta, c, u) {
            lemma_bucket_of(dist[u] as int, delta as int, c);
        }
    }
    lemma_bucket_of(nd as int, delta as int, c);
    assert(nb >= c);
    assert forall|x: int| 0 <= x < g.n && d2[x] < INF implies #[trigger] tended(
        g,
        d2,
        b1,
        settled,
        frontier,
        t,
        lset,
        h,
        delta,
        c,
        x,
    ) by {
        if x == v {
            assert(b1[nb]@[b1[nb]@.len() - 1] == v);
            assert(listed_from(b1[nb]@, 0, v));
            assert(waits(b1, d2, delta, c, v));
        } else {
            assert(tended(g, dist, b0, settled, frontier, t, lset, h, delta, c, x));
            if relaxed_all(g, dist, x) {
                assert forall|f: int| #[trigger] g.edge_from(x, f) implies d2[g.tgt[f] as int]
                    <= d2[x] + g.wts[f] by {
                    assert(dist[g.tgt[f] as int] <= dist[x] + g.wts[f]);
                }
            }
            if class_ok(g, dist, delta, true, x) {
                assert forall|f: int|
                    #[trigger] g.edge_from(x, f) && in_class(
                        g,
                        delta,
                        true,
                        f,
                    ) implies d2[g.tgt[f] as int] <= d2[x] + g.wts[f] by {
                    assert(dist[g.tgt[f] as int] <= dist[x] + g.wts[f]);
                }
            }
            if waits(b0, dist, delta, c, x) {
                let b = (dist[x] / delta) as int;
                let i = choose|i: int| 0 <= i < b0[b]@.len() && #[trigger] b0[b]@[i] == x;
                assert(b1[b]@[i] == b0[b]@[i]);
                assert(listed_from(b1[b]@, 0, x));
                assert(waits(b1, d2, delta, c, x));
            }
        }
    }
}

/// Once the light edges of the frontier vertex at `t` are relaxed, the next can be taken.
pub proof fn lemma_tend_light_next(
    g: Graph,
    dist: Seq<u64>,
    buckets: Seq<Vec<u32>>,
    settled: Seq<bool>,
    frontier: Seq<u32>,
    t: int,
    lset: Seq<u32>,
    h: int,
    delta: u64,
    c: int,
)
    requires
        all_tended(g, dist, buckets, settled, frontier, t, lset, h, delta, c),
        0 <= t < frontier.len(),
        frontier[t] < g.n,
        settled.len() == g.n,
        settled[frontier[t] as int],
        listed_from(lset, h, frontier[t] as int),
        class_ok(g, dist, delta, true, frontier[t] as int),
    ensures
        all_tended(g, dist, buckets, settled, frontier, t + 1, lset, h, delta, c),
{
    let u = frontier[t] as int;
    assert forall|x: int| 0 <= x < g.n && dist[x] < INF implies #[trigger] tended(
        g,
        dist,
        buckets,
        settled,
        frontier,
        t + 1,
        lset,
        h,
        delta,
        c,
        x,
    ) by {
        assert(tended(g, dist, buckets, settled, frontier, t, lset, h, delta, c, x));
        if x != u && listed_from(frontier, t, x) {
            let i = choose|i: int| t <= i < frontier.len() && #[trigger] frontier[i] == x;
            assert(i != t);
            assert(listed_from(frontier, t + 1, x));
        }
    }
}

/// Once every edge of the frontier vertex at `t` is relaxed, the next can be taken.
pub proof fn lemma_tend_done(
    g: Graph,
    dist: Seq<u64>,
    buckets: Seq<Vec<u32>>,
    settled: Seq<bool>,
    frontier: Seq<u32>,
    t: int,
    lset: Seq<u32>,
    h: int,
    delta: u64,
    c: int,
)
    requires
        all_tended(g, dist, buckets, settled, frontier, t, lset, h, delta, c),
        0 <= t < frontier.len(),
        frontier[t] < g.n,
        settled.len() == g.n,
        settled[frontier[t] as int],
        relaxed_all(g, dist, frontier[t] as int),
    ensures
        all_tended(g, dist, buckets, settled, frontier, t + 1, lset, h, delta, c),
{
    let u = frontier[t] as int;
    assert forall|x: int| 0 <= x < g.n && dist[x] < INF implies #[trigger] tended(
        g,
        dist,
        buckets,
        settled,
        frontier,
        t + 1,
        lset,
        h,
        delta,
        c,
        x,
    ) by {
        assert(tended(g, dist, buckets, settled, frontier, t, lset, h, delta, c, x));
        if x != u && listed_from(frontier, t, x) {
            let i = choose|i: int| t <= i < frontier.len() && #[trigger] frontier[i] == x;
            assert(i != t);
            assert(listed_from(frontier, t + 1, x));
        }
    }
}

/// Once the heavy edges of the listed vertex at `h` are relaxed, the next can be taken.
pub proof fn lemma_tend_heavy_next(
    g: Graph,
    dist: Seq<u64>,
    buckets: Seq<Vec<u32>>,
    settled: Seq<bool>,
    frontier: Seq<u32>,
    t: int,
    lset: Seq<u32>,
    h: int,
    delta: u64,
    c: int,
)
    requires
        all_tended(g, dist, buckets, settled, frontier, t, lset, h, delta, c),
        0 <= h < lset.len(),
        class_ok(g, dist, delta, false, lset[h] as int),
    ensures
        all_tended(g, dist, buckets, settled, frontier, t, lset, h + 1, delta, c),
{
    let u = lset[h] as int;
    assert forall|x: int| 0 <= x < g.n && dist[x] < INF implies #[trigger] tended(
        g,
        dist,
        buckets,
        settled,
        frontier,
        t,
        lset,
        h + 1,
        delta,
        c,
        x,
    ) by {
        assert(tended(g, dist, buckets, settled, frontier, t, lset, h, delta, c, x));
        if class_ok(g, dist, delta, true, x) && listed_from(lset, h, x) {
            if x == u {
                lemma_classes(g, dist, delta, x);
            } else {
                let i = choose|i: int| h <= i < lset.len() && #[trigger] lset[i] == x;
                assert(i != h);
                assert(listed_from(lset, h + 1, x));
            }
        }
    }
}

/// With the list done with, it can be emptied.
pub proof fn lemma_tend_clear(
    g: Graph,
    dist: Seq<u64>,
    buckets: Seq<Vec<u32>>,
    settled: Seq<bool>,
    frontier: Seq<u32>,
    t: int,
    lset: Seq<u32>,
    delta: u64,
    c: int,
)
    requires
        all_tended(g, dist, buckets, settled, frontier, t, lset, lset.len() as int, delta, c),
    ensures
        all_tended(g, dist, buckets, settled, frontier, t, Seq::empty(), 0, delta, c),
{
    let none = Seq::<u32>::empty();
    assert forall|u: int| 0 <= u < g.n && dist[u] < INF implies #[trigger] tended(
        g,
        dist,
        buckets,
        settled,
        frontier,
        t,
        none,
        0,
        delta,
        c,
        u,
    ) by {
        assert(tended(g, dist, buckets, settled, frontier, t, lset, lset.len() as int, delta, c, u));
    }
}

/// With frontier and list done with and the bucket at the cursor empty,
/// the cursor can move on; where no bucket follows, every reached vertex
/// is settled and has its edges relaxed.
pub proof fn lemma_tend_advance(
    g: Graph,
    dist: Seq<u64>,
    buckets: Seq<Vec<u32>>,
    settled: Seq<bool>,
    frontier: Seq<u32>,
    delta: u64,
    c: int,
)
    requires
        all_tended(g, dist, buckets, settled, frontier, frontier.len() as int, Seq::empty(), 0, delta, c),
        0 <= c < buckets.len(),
        buckets[c]@.len() == 0,
    ensures
        all_tended(
            g,
            dist,
            buckets,
            settled,
            frontier,
            frontier.len() as int,
            Seq::empty(),
            0,
            delta,
            c + 1,
        ),
        c + 1 == buckets.len() ==> forall|u: int|
            0 <= u < g.n && dist[u] < INF ==> #[trigger] relaxed_all(g, dist, u) && settled[u],
{
    let t = frontier.len() as int;
    let none = Seq::<u32>::empty();
    assert forall|u: int| 0 <= u < g.n && dist[u] < INF implies #[trigger] tended(
        g,
        dist,
        buckets,
        settled,
        frontier,
        t,
        none,
        0,
        delta,
        c + 1,
        u,
    ) by {
        assert(tended(g, dist, buckets, settled, frontier, t, none, 0, delta, c, u));
    }
    if c + 1 == buckets.len() {
        assert forall|u: int| 0 <= u < g.n && dist[u] < INF implies #[trigger] relaxed_all(
            g,
            dist,
            u,
        ) && settled[u] by {
            assert(tended(g, dist, buckets, settled, frontier, t, none, 0, delta, c, u));
        }
    }
}

/// What holds of a run between two steps: the arrays are sound, the state
/// has its shape, and every reached vertex is looked after.
pub open spec fn steady(
    g: Graph,
    s: int,
    dist: Seq<u64>,
    pred: Seq<i32>,
    st: BucketState,
    delta: u64,
    cap: u64,
) -> bool {
    &&& upper_ok(g, s, dist, pred)
    &&& st.ok(dist, cap)
    &&& st.tends(g, dist, delta)
    &&& reach_ok(dist, delta, cap)
    &&& paths_ok(g, s, dist)
    &&& counted_for(dist, st.light, st.heavy)
}

/// Every reached vertex but the source has taken a relaxation: no more
/// vertices are reached than one and the relaxations counted, unless a
/// counter stands at its largest value.
pub open spec fn counted_for(dist: Seq<u64>, light: u64, heavy: u64) -> bool {
    count_lt(dist, INF) <= 1 + light + heavy || light == u64::MAX || heavy == u64::MAX
}

/// No reached vertex has an entry whose bucket lies beyond the cap.
pub open spec fn reach_ok(dist: Seq<u64>, delta: u64, cap: u64) -> bool {
    forall|x: int| 0 <= x < dist.len() && (#[trigger] dist[x]) < INF ==> !beyond_cap(dist[x], delta, cap)
}

/// So many vertices are settled that a run with this limit ends.
pub open spec fn limit_hit(limit: Option<u32>, settled: u32) -> bool {
    limit is Some && settled >= limit->0
}

/// The most that a run with this limit settles.
pub open spec fn limit_room(limit: Option<u32>) -> int {
    match limit {
        Some(lim) => if lim == 0 {
            1int
        } else {
            lim as int
        },
        None => u32::MAX as int,
    }
}

/// Takes the entries of the bucket at the cursor as the new frontier and clears their marks.
fn take_frontier(st: &mut BucketState, Ghost(g): Ghost<Graph>, Ghost(dist): Ghost<Seq<u64>>, delta: u64, cap: u64)
    requires
        old(st).ok(dist, cap),
        old(st).tends(g, dist, delta),
        old(st).taken == old(st).frontier@.len(),
        dist.len() == g.n,
        delta >= 1,
    ensures
        final(st).ok(dist, cap),
        final(st).tends(g, dist, delta),
        final(st).taken == 0,
        final(st).frontier@ == old(st).buckets@[old(st).cursor as int]@,
        final(st).buckets@.len() == old(st).buckets@.len(),
        final(st).buckets@[old(st).cursor as int]@.len() == 0,
        final(st).settled@ == old(st).settled@,
        final(st).in_set@ == old(st).in_set@,
        final(st).light_set@ == old(st).light_set@,
        final(st).heavy_done == old(st).heavy_done,
        final(st).cursor == old(st).cursor,
        final(st).settled_count == old(st).settled_count,
        final(st).light == old(st).light,
        final(st).heavy == old(st).heavy,
{
    let c: usize = st.cursor;
    let ghost b0 = st.buckets@;
    let ghost f0 = st.frontier@;
    let mut taken: Vec<u32> = Vec::new();
    core::mem::swap(&mut taken, &mut st.buckets[c]);
    st.frontier = taken;
    st.taken = 0;
    proof {
        let b1 = st.buckets@;
        assert forall|b: int| 0 <= b < b0.len() && b != c implies b1[b] == b0[b] by {}
        assert forall|i: int| 0 <= i < b0[c as int]@.len() implies listed_from(
            st.frontier@,
            0,
            #[trigger] b0[c as int]@[i] as int,
        ) by {
            assert(st.frontier@[i] == b0[c as int]@[i]);
        }
        lemma_tend_take(
            g,
            dist,
            b0,
            b1,
            st.settled@,
            f0,
            st.frontier@,
            st.light_set@,
            st.heavy_done as int,
            delta,
            c as int,
        );
        assert forall|i: int| 0 <= i < st.frontier@.len() implies (#[trigger] st.frontier@[i])
            < dist.len() && dist[st.frontier@[i] as int] < INF by {
            assert(b0[c as int]@[i] < dist.len());
        }
        assert forall|b: int, i: int| 0 <= b < b1.len() && 0 <= i < b1[b]@.len() implies (
        #[trigger] b1[b]@[i]) < dist.len() && dist[b1[b]@[i] as int] < INF by {
            if b != c {
                assert(b1[b] == b0[b]);
                assert(b0[b]@[i] < dist.len());
            }
        }
    }
    let len: usize = st.frontier.len();
    let mut t: usize = 0;
    while t < len
        invariant
            t <= len,
            len == st.frontier@.len(),
            st.ok(dist, cap),
            st.tends(g, dist, delta),
            st.taken == 0,
            st.frontier@ == b0[c as int]@,
            st.buckets@.len() == b0.len(),
            st.buckets@[c as int]@.len() == 0,
            c == st.cursor,
            st.settled@ == old(st).settled@,
            st.in_set@ == old(st).in_set@,
            st.light_set@ == old(st).light_set@,
            st.heavy_done == old(st).heavy_done,
            st.cursor == old(st).cursor,
            st.settled_count == old(st).settled_count,
            st.light == old(st).light,
            st.heavy == old(st).heavy,
        decreases len - t,
    {
        let u: usize = st.frontier[t] as usize;
        st.in_bucket[u] = false;
        t += 1;
    }
}

/// One light pass over the bucket at the cursor: its entries become the
/// frontier, and each frontier vertex is settled unless it is already,
/// joins the list for the heavy pass, and has its light edges relaxed.
/// Returns the status and whether the limit on settled vertices ended the pass.
fn light_pass(
    g: &Csr,
    source: u32,
    delta: u64,
    dist: &mut Vec<u64>,
    pred: &mut Vec<i32>,
    st: &mut BucketState,
    cap: u64,
    limit: Option<u32>,
) -> (r: (i32, bool))
    requires
        steady(g@, source as int, old(dist)@, old(pred)@, *old(st), delta, cap),
        delta >= 1,
        old(st).taken == old(st).frontier@.len(),
        old(st).heavy_done == 0,
        old(st).settled_count == 0 || !limit_hit(limit, old(st).settled_count),
    ensures
        r.0 == STATUS_OK || r.0 == STATUS_CAP_EXCEEDED,
        upper_ok(g@, source as int, final(dist)@, final(pred)@),
        reach_ok(final(dist)@, delta, cap),
        paths_ok(g@, source as int, final(dist)@),
        counted_for(final(dist)@, final(st).light, final(st).heavy),
        final(st).ok(final(dist)@, cap),
        final(st).cursor == old(st).cursor,
        final(st).heavy_done == 0,
        final(st).buckets@.len() >= old(st).buckets@.len(),
        final(st).heavy == old(st).heavy,
        final(st).light >= old(st).light,
        final(st).settled_count >= old(st).settled_count,
        final(st).settled_count <= limit_room(limit) || final(st).settled_count == old(st).settled_count,
        dist_sum(final(dist)@) <= dist_sum(old(dist)@),
        dist_sum(final(dist)@) == dist_sum(old(dist)@) ==> final(st).buckets@[old(st).cursor as int]@.len()
            == 0,
        r.0 == STATUS_OK ==> final(st).tends(g@, final(dist)@, delta),
        r.0 == STATUS_OK && !r.1 ==> final(st).taken == final(st).frontier@.len(),
        r.0 == STATUS_OK && !r.1 ==> final(st).settled_count == 0 || !limit_hit(limit, final(st).settled_count),
        r.1 ==> r.0 == STATUS_OK && limit_hit(limit, final(st).settled_count),
        r.0 == STATUS_CAP_EXCEEDED ==> cap_witness(g@, source as int, delta, cap),
        r.0 == STATUS_OK && old(st).buckets@[old(st).cursor as int]@.len() > 0 ==> final(st).settled_count
            >= 1,
{
    let ghost gg = g@;
    let ghost s = source as int;
    let ghost ds0 = dist_sum(dist@);
    let ghost c = st.cursor as int;
    let ghost len0 = st.buckets@.len();
    let ghost count0 = st.settled_count;
    take_frontier(st, Ghost(gg), Ghost(dist@), delta, cap);
    let mut stop: bool = false;
    while st.taken < st.frontier.len() && !stop
        invariant
            gg == g@,
            s == source as int,
            delta >= 1,
            steady(gg, s, dist@, pred@, *st, delta, cap),
            c == st.cursor,
            c == old(st).cursor,
            st.heavy_done == 0,
            st.buckets@.len() >= len0,
            len0 == old(st).buckets@.len(),
            st.heavy == old(st).heavy,
            st.light >= old(st).light,
            count0 == old(st).settled_count,
            st.settled_count >= count0,
            st.settled_count <= limit_room(limit) || st.settled_count == count0,
            !stop ==> st.settled_count == 0 || !limit_hit(limit, st.settled_count),
            stop ==> limit_hit(limit, st.settled_count),
            st.frontier@.len() == old(st).buckets@[c]@.len(),
            st.taken > 0 ==> st.settled_count >= 1,
            stop ==> st.taken > 0,
            ds0 == dist_sum(old(dist)@),
            dist_sum(dist@) <= ds0,
            dist_sum(dist@) == ds0 ==> st.buckets@[c]@.len() == 0,
        decreases st.frontier@.len() - st.taken + (if stop { 0int } else { 1int }),
    {
        let u: u32 = st.frontier[st.taken];
        let ui: usize = u as usize;
        let ghost s0 = st.settled@;
        let ghost l0 = st.light_set@;
        let mut fresh: bool = false;
        if !st.settled[ui] {
            proof {
                lemma_count_true_set(st.settled@, u as int);
                lemma_count_true_le(st.settled@.update(u as int, true));
            }
            st.settled[ui] = true;
            st.settled_count = st.settled_count + 1;
            fresh = true;
        }
        if !st.in_set[ui] {
            st.in_set[ui] = true;
            st.light_set.push(u);
        }
        proof {
            let l1 = st.light_set@;
            assert forall|i: int| 0 <= i < l0.len() implies l1[i] == l0[i] by {}
            lemma_tend_mark(
                gg,
                dist@,
                st.buckets@,
                s0,
                st.settled@,
                st.frontier@,
                st.taken as int,
                l0,
                l1,
                0,
                delta,
                c,
            );
            assert forall|x: int| 0 <= x < dist@.len() && #[trigger] st.in_set@[x] implies listed_from(
                l1,
                0,
                x,
            ) by {
                if x == u as int && l1.len() > l0.len() {
                    assert(l1[l1.len() - 1] == u);
                } else {
                    assert(listed_from(l0, 0, x));
                    let i = choose|i: int| 0 <= i < l0.len() && #[trigger] l0[i] == x;
                    assert(l1[i] == x);
                }
            }
            assert(list_reached(l1, dist@)) by {
                assert forall|i: int| 0 <= i < l1.len() implies (#[trigger] l1[i]) < dist@.len()
                    && dist@[l1[i] as int] < INF by {
                    if i < l0.len() {
                        assert(l1[i] == l0[i]);
                    }
                }
            }
            assert(st.in_set@[u as int]);
            assert(listed_from(l1, 0, u as int));
            lemma_count_true_some(st.settled@, u as int);
        }
        let (status, _again) = relax_from(g, source, u, true, delta, dist, pred, st, st.cursor, cap);
        if status != STATUS_OK {
            return (status, false);
        }
        proof {
            lemma_tend_light_next(
                gg,
                dist@,
                st.buckets@,
                st.settled@,
                st.frontier@,
                st.taken as int,
                st.light_set@,
                0,
                delta,
                c,
            );
        }
        st.taken = st.taken + 1;
        if fresh {
            match limit {
                Some(lim) => {
                    if st.settled_count >= lim {
                        stop = true;
                    }
                },
                None => {},
            }
        }
    }
    (STATUS_OK, stop)
}

/// The heavy pass: relaxes the heavy edges of every vertex on the list,
/// then empties the list.
fn heavy_pass(
    g: &Csr,
    source: u32,
    delta: u64,
    dist: &mut Vec<u64>,
    pred: &mut Vec<i32>,
    st: &mut BucketState,
    cap: u64,
) -> (status: i32)
    requires
        steady(g@, source as int, old(dist)@, old(pred)@, *old(st), delta, cap),
        delta >= 1,
        old(st).heavy_done == 0,
    ensures
        status == STATUS_OK || status == STATUS_CAP_EXCEEDED,
        upper_ok(g@, source as int, final(dist)@, final(pred)@),
        reach_ok(final(dist)@, delta, cap),
        paths_ok(g@, source as int, final(dist)@),
        counted_for(final(dist)@, final(st).light, final(st).heavy),
        final(st).ok(final(dist)@, cap),
        final(st).cursor == old(st).cursor,
        final(st).taken == old(st).taken,
        final(st).frontier@ == old(st).frontier@,
        final(st).buckets@.len() >= old(st).buckets@.len(),
        final(st).light == old(st).light,
        final(st).heavy >= old(st).heavy,
        final(st).settled_count == old(st).settled_count,
        dist_sum(final(dist)@) <= dist_sum(old(dist)@),
        dist_sum(final(dist)@) == dist_sum(old(dist)@) ==> final(st).buckets@[old(st).cursor as int]@.len()
            == old(st).buckets@[old(st).cursor as int]@.len(),
        status == STATUS_OK ==> final(st).tends(g@, final(dist)@, delta) && final(st).heavy_done == 0
            && final(st).light_set@.len() == 0,
        status == STATUS_CAP_EXCEEDED ==> cap_witness(g@, source as int, delta, cap),
{
    let ghost gg = g@;
    let ghost s = source as int;
    let ghost ds0 = dist_sum(dist@);
    let ghost c = st.cursor as int;
    let ghost blen = st.buckets@[c]@.len();
    while st.heavy_done < st.light_set.len()
        invariant
            gg == g@,
            s == source as int,
            delta >= 1,
            steady(gg, s, dist@, pred@, *st, delta, cap),
            c == st.cursor,
            c == old(st).cursor,
            st.taken == old(st).taken,
            st.frontier@ == old(st).frontier@,
            st.buckets@.len() >= old(st).buckets@.len(),
            st.light == old(st).light,
            st.heavy >= old(st).heavy,
            st.settled_count == old(st).settled_count,
            ds0 == dist_sum(old(dist)@),
            blen == old(st).buckets@[c]@.len(),
            dist_sum(dist@) <= ds0,
            dist_sum(dist@) == ds0 ==> st.buckets@[c]@.len() == blen,
        decreases st.light_set@.len() - st.heavy_done,
    {
        let u: u32 = st.light_set[st.heavy_done];
        let ghost b_before = st.buckets@;
        let (status, _again) = relax_from(g, source, u, false, delta, dist, pred, st, st.cursor, cap);
        proof {
            assert(grown(b_before, st.buckets@, c));
        }
        if status != STATUS_OK {
            return status;
        }
        proof {
            lemma_tend_heavy_next(
                gg,
                dist@,
                st.buckets@,
                st.settled@,
                st.frontier@,
                st.taken as int,
                st.light_set@,
                st.heavy_done as int,
                delta,
                c,
            );
        }
        st.heavy_done = st.heavy_done + 1;
    }
    let len: usize = st.light_set.len();
    let mut i: usize = 0;
    while i < len
        invariant
            i <= len,
            len == st.light_set@.len(),
            st.heavy_done == len,
            steady(gg, s, dist@, pred@, *st, delta, cap),
            forall|x: int|
                0 <= x < dist@.len() && #[trigger] st.in_set@[x] ==> listed_from(st.light_set@, i as int, x),
            c == st.cursor,
            c == old(st).cursor,
            st.taken == old(st).taken,
            st.frontier@ == old(st).frontier@,
            st.buckets@.len() >= old(st).buckets@.len(),
            st.light == old(st).light,
            st.heavy >= old(st).heavy,
            st.settled_count == old(st).settled_count,
            dist_sum(dist@) <= ds0,
            dist_sum(dist@) == ds0 ==> st.buckets@[c]@.len() == blen,
        decreases len - i,
    {
        let u: usize = st.light_set[i] as usize;
        let ghost marks = st.in_set@;
        st.in_set[u] = false;
        proof {
            assert forall|x: int| 0 <= x < dist@.len() && #[trigger] st.in_set@[x] implies listed_from(
                st.light_set@,
                i + 1,
                x,
            ) by {
                assert(marks[x]);
                let j = choose|j: int| i <= j < st.light_set@.len() && #[trigger] st.light_set@[j] == x;
                assert(j != i);
            }
            assert forall|x: int| 0 <= x < dist@.len() && #[trigger] st.in_set@[x] implies listed_from(
                st.light_set@,
                0,
                x,
            ) by {
                assert(marks[x]);
            }
        }
        i += 1;
    }
    proof {
        lemma_tend_clear(
            gg,
            dist@,
            st.buckets@,
            st.settled@,
            st.frontier@,
            st.taken as int,
            st.light_set@,
            delta,
            c,
        );
        assert forall|x: int| 0 <= x < dist@.len() implies !#[trigger] st.in_set@[x] by {
            if st.in_set@[x] {
                assert(listed_from(st.light_set@, len as int, x));
            }
        }
    }
    st.light_set.clear();
    st.heavy_done = 0;
    proof {
        assert(st.light_set@ =~= Seq::<u32>::empty());
    }
    STATUS_OK
}

/// Processes the bucket at the cursor: light passes until none entered a
/// vertex into it again, then the heavy pass; and both once more if the
/// heavy pass entered one. Counts the light passes. Returns the status and
/// whether the limit on settled vertices ended the work.
fn settle_bucket(
    g: &Csr,
    source: u32,
    delta: u64,
    dist: &mut Vec<u64>,
    pred: &mut Vec<i32>,
    st: &mut BucketState,
    cap: u64,
    limit: Option<u32>,
    light_repeats: &mut u64,
) -> (r: (i32, bool))
    requires
        steady(g@, source as int, old(dist)@, old(pred)@, *old(st), delta, cap),
        delta >= 1,
        old(st).taken == old(st).frontier@.len(),
        old(st).heavy_done == 0,
        old(st).light_set@.len() == 0,
        old(st).buckets@[old(st).cursor as int]@.len() > 0,
        old(st).settled_count == 0 || !limit_hit(limit, old(st).settled_count),
    ensures
        r.0 == STATUS_OK || r.0 == STATUS_CAP_EXCEEDED,
        upper_ok(g@, source as int, final(dist)@, final(pred)@),
        reach_ok(final(dist)@, delta, cap),
        paths_ok(g@, source as int, final(dist)@),
        counted_for(final(dist)@, final(st).light, final(st).heavy),
        final(st).ok(final(dist)@, cap),
        final(st).cursor == old(st).cursor,
        final(st).light >= old(st).light,
        final(st).heavy >= old(st).heavy,
        final(st).settled_count >= old(st).settled_count,
        final(st).settled_count <= limit_room(limit) || final(st).settled_count == old(st).settled_count,
        *final(light_repeats) >= *old(light_repeats),
        r.0 == STATUS_OK ==> final(st).tends(g@, final(dist)@, delta) && final(st).heavy_done == 0
            && final(st).light_set@.len() == 0,
        r.0 == STATUS_OK && !r.1 ==> final(st).taken == final(st).frontier@.len(),
        r.0 == STATUS_OK && !r.1 ==> final(st).buckets@[old(st).cursor as int]@.len() == 0,
        r.0 == STATUS_OK && !r.1 ==> final(st).settled_count == 0 || !limit_hit(limit, final(st).settled_count),
        r.1 ==> r.0 == STATUS_OK && limit_hit(limit, final(st).settled_count),
        r.0 == STATUS_CAP_EXCEEDED ==> cap_witness(g@, source as int, delta, cap),
        r.0 == STATUS_OK ==> final(st).settled_count >= 1,
{
    let ghost gg = g@;
    let ghost s = source as int;
    let ghost c = st.cursor as int;
    let mut stop: bool = false;
    let ghost mut passes: int = 0;
    while st.buckets[st.cursor].len() > 0 && !stop
        invariant
            gg == g@,
            s == source as int,
            delta >= 1,
            steady(gg, s, dist@, pred@, *st, delta, cap),
            c == st.cursor,
            c == old(st).cursor,
            st.heavy_done == 0,
            st.light >= old(st).light,
            st.heavy >= old(st).heavy,
            st.settled_count >= old(st).settled_count,
            st.settled_count <= limit_room(limit) || st.settled_count == old(st).settled_count,
            *light_repeats >= *old(light_repeats),
            !stop ==> st.taken == st.frontier@.len() && (st.settled_count == 0 || !limit_hit(
                limit,
                st.settled_count,
            )),
            stop ==> limit_hit(limit, st.settled_count),
            st.light_set@.len() == 0 || (st.buckets@[c]@.len() > 0 && !stop),
            passes == 0 ==> st.buckets@[c]@.len() > 0 && !stop,
            passes > 0 ==> st.settled_count >= 1,
            passes >= 0,
        decreases dist_sum(dist@), st.buckets@[c]@.len(),
    {
        *light_repeats = bump(*light_repeats);
        let (status, hit) = light_pass(g, source, delta, dist, pred, st, cap, limit);
        if status != STATUS_OK {
            return (status, false);
        }
        if hit {
            stop = true;
        }
        proof {
            passes = passes + 1;
        }
        if stop || st.buckets[st.cursor].len() == 0 {
            let status = heavy_pass(g, source, delta, dist, pred, st, cap);
            if status != STATUS_OK {
                return (status, false);
            }
        }
        proof {
            lemma_dist_sum_nonneg(dist@);
        }
    }
    (STATUS_OK, stop)
}

/// The run has worked through the first `upto` bands: every reached
/// vertex has its edges relaxed, or lies `upto` deltas from the source or
/// farther.
pub open spec fn worked_through(g: Graph, dist: Seq<u64>, delta: u64, upto: int) -> bool {
    forall|u: int|
        0 <= u < g.n && (#[trigger] dist[u]) < INF ==> relaxed_all(g, dist, u) || dist[u] >= upto
            * delta
}

/// Between two buckets, with the cursor at `c`, the run has worked through
/// the first `c` bands.
pub proof fn lemma_worked(
    g: Graph,
    dist: Seq<u64>,
    buckets: Seq<Vec<u32>>,
    settled: Seq<bool>,
    frontier: Seq<u32>,
    delta: u64,
    c: int,
    upto: int,
)
    requires
        all_tended(g, dist, buckets, settled, frontier, frontier.len() as int, Seq::empty(), 0, delta, c),
        delta >= 1,
        0 <= upto <= c,
    ensures
        worked_through(g, dist, delta, upto),
{
    assert forall|u: int| 0 <= u < g.n && (#[trigger] dist[u]) < INF implies relaxed_all(g, dist, u)
        || dist[u] >= upto * delta by {
        assert(tended(
            g,
            dist,
            buckets,
            settled,
            frontier,
            frontier.len() as int,
            Seq::empty(),
            0,
            delta,
            c,
            u,
        ));
        if !relaxed_all(g, dist, u) {
            lemma_bucket_of(dist[u] as int, delta as int, c);
            assert(upto * delta <= c * delta) by (nonlinear_arith)
                requires
                    0 <= upto <= c,
                    delta >= 1,
            ;
        }
    }
}

/// What one run with a fixed delta leaves beside distances and predecessors.
#[derive(Clone, Copy, Debug, PartialEq, Eq, Structural)]
pub struct DeltaRun {
    /// Accepted relaxations: light and heavy together, stopping at the largest value.
    pub relaxations: u64,
    pub light: u64,
    pub heavy: u64,
    /// Vertices settled.
    pub settled: u32,
    /// Non-empty buckets processed.
    pub buckets_visited: u64,
    /// Light passes, summed over the buckets.
    pub light_repeats: u64,
    /// Buckets allocated.
    pub bucket_len: u64,
    /// 0, or -5 where a bucket index went beyond the cap.
    pub status: i32,
    /// For an adaptive run that stopped to restart, the change to make; else `Keep`.
    pub action: AdaptAction,
}

/// The counters of a run fit together.
pub open spec fn run_ok(g: Graph, run: DeltaRun) -> bool {
    &&& run.relaxations == sat_add(run.light, run.heavy)
    &&& run.settled <= g.n
    &&& 1 <= run.bucket_len <= bucket_cap(g.n as u32) + 1
    &&& run.buckets_visited <= run.bucket_len
}

/// The run went through every bucket: it met no cap, was not stopped for
/// another delta, and the limit on settled vertices did not end it.
pub open spec fn ran_through(run: DeltaRun, limit: Option<u32>) -> bool {
    &&& run.status == STATUS_OK
    &&& run.action == AdaptAction::Keep
    &&& !limit_hit(limit, run.settled)
}

/// Gathers the counters of a run.
fn run_of(
    st: &BucketState,
    visited: u64,
    repeats: u64,
    status: i32,
    action: AdaptAction,
    Ghost(dist): Ghost<Seq<u64>>,
    Ghost(cap): Ghost<u64>,
) -> (run: DeltaRun)
    requires
        st.ok(dist, cap),
        counted_for(dist, st.light, st.heavy),
    ensures
        count_lt(dist, INF) <= 1 + run.relaxations,
        run == (DeltaRun {
            relaxations: sat_add(st.light, st.heavy),
            light: st.light,
            heavy: st.heavy,
            settled: st.settled_count,
            buckets_visited: visited,
            light_repeats: repeats,
            bucket_len: st.buckets@.len() as u64,
            status,
            action,
        }),
        run.settled <= dist.len(),
{
    let slots: usize = st.settled.len();
    proof {
        lemma_count_true_le(st.settled@);
        lemma_count_lt_le(dist, INF);
        assert(count_lt(dist, INF) <= slots);
    }
    DeltaRun {
        relaxations: dist_add(st.light, st.heavy),
        light: st.light,
        heavy: st.heavy,
        settled: st.settled_count,
        buckets_visited: visited,
        light_repeats: repeats,
        bucket_len: st.buckets.len() as u64,
        status,
        action,
    }
}

/// One run of the engine with a fixed delta. `truncate_after` ends the run
/// once so many vertices are settled; `adapt` lets the run stop after a
/// bucket, once the trigger is reached, where the share of heavy
/// relaxations calls for another delta, having worked through the bands
/// of the buckets it visited. A run that went through every
/// bucket leaves the shortest-path distances, a predecessor on a shortest
/// path for each reached vertex, and has settled the reached vertices; one
/// that the limit ended has settled as many vertices as the limit says, one
/// where the limit is 0.
pub fn stoc_run_internal(
    g: &Csr,
    source: u32,
    delta: u64,
    dist: &mut Vec<u64>,
    pred: &mut Vec<i32>,
    truncate_after: Option<u32>,
    adapt: Option<AdaptParams>,
) -> (run: DeltaRun)
    requires
        g@.wf(),
        source < g.n,
        old(dist)@.len() == g@.n,
        old(pred)@.len() == g@.n,
        delta >= 1,
    ensures
        run.status == STATUS_OK || run.status == STATUS_CAP_EXCEEDED,
        upper_ok(g@, source as int, final(dist)@, final(pred)@),
        reach_ok(final(dist)@, delta, bucket_cap(g.n)),
        run_ok(g@, run),
        count_lt(final(dist)@, INF) <= 1 + run.relaxations,
        run.settled <= count_lt(final(dist)@, INF),
        run.settled <= limit_room(truncate_after),
        run.status == STATUS_OK ==> run.settled >= 1 && run.buckets_visited >= 1,
        run.status == STATUS_OK && limit_hit(truncate_after, run.settled) ==> run.settled == limit_room(
            truncate_after,
        ),
        run.action != AdaptAction::Keep ==> {
            &&& run.status == STATUS_OK
            &&& adapt is Some
            &&& run.buckets_visited >= adapt->0.trigger
            &&& run.action == adapt_decision(run.relaxations, run.heavy, adapt->0)
            &&& worked_through(g@, final(dist)@, delta, run.buckets_visited as int)
        },
        ran_through(run, truncate_after) ==> {
            &&& g@.is_solution(source as int, final(dist)@)
            &&& g@.pred_tight(source as int, final(dist)@, final(pred)@)
            &&& run.settled == count_lt(final(dist)@, INF)
        },
        run.status == STATUS_CAP_EXCEEDED ==> cap_witness(g@, source as int, delta, bucket_cap(g.n)),
{
    let n: u32 = g.n;
    let ghost gg = g@;
    let ghost s = source as int;
    fill_dist(dist, INF);
    fill_pred(pred);
    dist[source as usize] = 0;
    let cap: u64 = 4 * (n as u64) + 1024;
    let mut first: Vec<u32> = Vec::new();
    first.push(source);
    let mut buckets: Vec<Vec<u32>> = Vec::new();
    buckets.push(first);
    let mut in_bucket: Vec<bool> = vec![false; n as usize];
    in_bucket[source as usize] = true;
    let mut st = BucketState {
        buckets,
        in_bucket,
        settled: vec![false; n as usize],
        in_set: vec![false; n as usize],
        frontier: Vec::new(),
        taken: 0,
        light_set: Vec::new(),
        heavy_done: 0,
        cursor: 0,
        settled_count: 0,
        light: 0,
        heavy: 0,
    };
    proof {
        lemma_upper_start(gg, s, dist@, pred@);
        lemma_paths_start(gg, s, dist@);
        lemma_count_lt_single(dist@, s);
        lemma_count_true_none(st.settled@);
        assert(st.buckets@[0]@ =~= seq![source]);
        lemma_tend_start(gg, s, dist@, st.buckets@, st.settled@, delta);
        assert(st.frontier@ =~= Seq::<u32>::empty());
        assert(st.light_set@ =~= Seq::<u32>::empty());
        assert(st.buckets@[0]@[0] == source);
    }
    let mut visited: u64 = 0;
    let mut repeats: u64 = 0;
    loop
        invariant
            gg == g@,
            s == source as int,
            n == gg.n,
            cap == bucket_cap(n),
            delta >= 1,
            steady(gg, s, dist@, pred@, st, delta, cap),
            st.taken == st.frontier@.len(),
            st.heavy_done == 0,
            st.light_set@.len() == 0,
            st.settled_count == 0 || !limit_hit(truncate_after, st.settled_count),
            st.settled_count <= limit_room(truncate_after),
            visited <= st.cursor,
            visited == 0 ==> st.cursor == 0 && st.buckets@[0]@.len() > 0,
            visited > 0 ==> st.settled_count >= 1,
        decreases cap + 2 - st.cursor,
    {
        if st.buckets[st.cursor].len() > 0 {
            visited = visited + 1;
            let (status, stop) = settle_bucket(
                g,
                source,
                delta,
                dist,
                pred,
                &mut st,
                cap,
                truncate_after,
                &mut repeats,
            );
            proof {
                lemma_settled_reached(st.settled@, dist@);
            }
            if status != STATUS_OK {
                return run_of(&st, visited, repeats, status, AdaptAction::Keep, Ghost(dist@), Ghost(cap));
            }
            if stop {
                return run_of(&st, visited, repeats, STATUS_OK, AdaptAction::Keep, Ghost(dist@), Ghost(cap));
            }
            match adapt {
                Some(p) => {
                    if visited >= p.trigger as u64 {
                        let a = decide(dist_add(st.light, st.heavy), st.heavy, &p);
                        match a {
                            AdaptAction::Keep => {},
                            _ => {
                                proof {
                                    assert(st.light_set@ =~= Seq::<u32>::empty());
                                    lemma_tend_advance(
                                        gg,
                                        dist@,
                                        st.buckets@,
                                        st.settled@,
                                        st.frontier@,
                                        delta,
                                        st.cursor as int,
                                    );
                                    lemma_worked(
                                        gg,
                                        dist@,
                                        st.buckets@,
                                        st.settled@,
                                        st.frontier@,
                                        delta,
                                        st.cursor + 1,
                                        visited as int,
                                    );
                                }
                                return run_of(&st, visited, repeats, STATUS_OK, a, Ghost(dist@), Ghost(cap));
                            },
                        }
                    }
                },
                None => {},
            }
        }
        proof {
            assert(st.light_set@ =~= Seq::<u32>::empty());
            lemma_tend_advance(
                gg,
                dist@,
                st.buckets@,
                st.settled@,
                st.frontier@,
                delta,
                st.cursor as int,
            );
        }
        if st.cursor + 1 == st.buckets.len() {
            proof {
                lemma_relaxed_is_solution(gg, s, dist@, pred@);
                assert forall|x: int| 0 <= x < dist@.len() implies ((#[trigger] st.settled@[x])
                    <==> dist@[x] < INF) by {
                    if dist@[x] < INF {
                        assert(relaxed_all(gg, dist@, x));
                    }
                }
                lemma_count_marks(st.settled@, dist@, INF);
            }
            return run_of(&st, visited, repeats, STATUS_OK, AdaptAction::Keep, Ghost(dist@), Ghost(cap));
        }
        st.cursor = st.cursor + 1;
    }
}

/// No more vertices are marked than are reached, where every marked vertex is reached.
pub proof fn lemma_settled_reached(settled: Seq<bool>, dist: Seq<u64>)
    requires
        settled.len() == dist.len(),
        forall|x: int| 0 <= x < dist.len() && #[trigger] settled[x] ==> dist[x] < INF,
    ensures
        count_true(settled) <= count_lt(dist, INF),
    decreases dist.len(),
{
    if dist.len() > 0 {
        let v = settled.drop_last();
        let d = dist.drop_last();
        assert forall|x: int| 0 <= x < d.len() && #[trigger] v[x] implies d[x] < INF by {
            assert(settled[x]);
        }
        lemma_settled_reached(v, d);
    }
}

/// What an adaptive run decides about its delta.
#[derive(Clone, Copy, Debug, PartialEq, Eq, Structural)]
pub enum AdaptAction {
    /// Keep delta.
    Keep,
    /// No relaxation was heavy: halve delta.
    Halve,
    /// Too few relaxations were heavy: multiply delta by 0.7.
    Shrink,
    /// Too many relaxations were heavy: multiply delta by 1.5.
    Expand,
}

/// When and within which share of heavy relaxations an adaptive run keeps its delta.
#[derive(Clone, Copy, Debug, PartialEq, Eq, Structural)]
pub struct AdaptParams {
    /// Buckets to visit before the share is looked at.
    pub trigger: u32,
    /// Least share of heavy relaxations, in thousandths.
    pub heavy_min_x1000: u32,
    /// Largest share of heavy relaxations, in thousandths.
    pub heavy_max_x1000: u32,
}

/// The decision for `heavy` heavy relaxations among `relaxations`.
pub open spec fn adapt_decision(relaxations: u64, heavy: u64, p: AdaptParams) -> AdaptAction {
    if heavy == 0 {
        AdaptAction::Halve
    } else if heavy * 1000 < p.heavy_min_x1000 * relaxations {
        AdaptAction::Shrink
    } else if heavy * 1000 > p.heavy_max_x1000 * relaxations {
        AdaptAction::Expand
    } else {
        AdaptAction::Keep
    }
}

/// Computes `adapt_decision`.
pub fn decide(relaxations: u64, heavy: u64, p: &AdaptParams) -> (a: AdaptAction)
    ensures
        a == adapt_decision(relaxations, heavy, *p),
{
    if heavy == 0 {
        return AdaptAction::Halve;
    }
    proof {
        assert(p.heavy_min_x1000 * relaxations <= 0xffff_ffff * 0xffff_ffff_ffff_ffff)
            by (nonlinear_arith)
            requires
                0 <= p.heavy_min_x1000 <= 0xffff_ffff,
                0 <= relaxations <= 0xffff_ffff_ffff_ffff,
        ;
        assert(p.heavy_max_x1000 * relaxations <= 0xffff_ffff * 0xffff_ffff_ffff_ffff)
            by (nonlinear_arith)
            requires
                0 <= p.heavy_max_x1000 <= 0xffff_ffff,
                0 <= relaxations <= 0xffff_ffff_ffff_ffff,
        ;
    }
    let h: u128 = heavy as u128 * 1000;
    let lo: u128 = p.heavy_min_x1000 as u128 * relaxations as u128;
    let hi: u128 = p.heavy_max_x1000 as u128 * relaxations as u128;
    if h < lo {
        AdaptAction::Shrink
    } else if h > hi {
        AdaptAction::Expand
    } else {
        AdaptAction::Keep
    }
}

/// The delta after an action: halved, times 0.7 or times 1.5, and never
/// below one tick nor at `INF`.
pub open spec fn adapted_delta(delta: u64, a: AdaptAction) -> u64 {
    let raw = match a {
        AdaptAction::Keep => delta as int,
        AdaptAction::Halve => (delta / 2) as int,
        AdaptAction::Shrink => (delta * 7 / 10) as int,
        AdaptAction::Expand => (delta * 3 / 2) as int,
    };
    if raw < 1 {
        1
    } else if raw >= INF {
        (INF - 1) as u64
    } else {
        raw as u64
    }
}

/// Computes `adapted_delta`.
pub fn adapt_delta(delta: u64, a: AdaptAction) -> (d: u64)
    ensures
        d == adapted_delta(delta, a),
        1 <= d < INF,
{
    let raw: u128 = match a {
        AdaptAction::Keep => delta as u128,
        AdaptAction::Halve => (delta / 2) as u128,
        AdaptAction::Shrink => delta as u128 * 7 / 10,
        AdaptAction::Expand => delta as u128 * 3 / 2,
    };
    if raw < 1 {
        1
    } else if raw >= INF as u128 {
        INF - 1
    } else {
        raw as u64
    }
}

/// The cap on the bucket index for a graph of `n` vertices.
pub open spec fn bucket_cap(n: u32) -> u64 {
    (4 * n + 1024) as u64
}

/// Options of the delta-stepping engine.
#[derive(Clone, Copy, Debug, PartialEq, Eq)]
pub struct DeltaConfig {
    /// How delta is selected.
    pub mode: DeltaMode,
    /// Multiplier in thousandths; where absent, 3.0 for the mean and 1.0 for the quantile.
    pub mult_x1000: Option<u64>,
    /// Share of the sampled weights to lie above the quantile, in thousandths.
    pub heavy_target_x1000: u32,
    /// Most restarts made.
    pub adapt_max_restarts: u32,
    /// Buckets to visit before the share of heavy relaxations is looked at;
    /// where absent, half the binary logarithm of the vertex count, within 3 and 40.
    pub adapt_trigger: Option<u32>,
    /// Least share of heavy relaxations, in thousandths.
    pub heavy_min_x1000: u32,
    /// Largest share of heavy relaxations, in thousandths.
    pub heavy_max_x1000: u32,
    /// Whether restarts are recorded.
    pub trace: bool,
}

impl DeltaConfig {
    /// The options used where none are given.
    pub fn new() -> (c: Self)
        ensures
            c.mode == DeltaMode::Average,
            c.mult_x1000 is None,
            c.heavy_target_x1000 == 150,
            c.adapt_max_restarts == 4,
            c.adapt_trigger is None,
            c.heavy_min_x1000 == 50,
            c.heavy_max_x1000 == 250,
            !c.trace,
    {
        Self {
            mode: DeltaMode::Average,
            mult_x1000: None,
            heavy_target_x1000: 150,
            adapt_max_restarts: 4,
            adapt_trigger: None,
            heavy_min_x1000: 50,
            heavy_max_x1000: 250,
            trace: false,
        }
    }
}

/// The multiplier of `cfg`, or `otherwise` where it has none.
pub open spec fn mult_or(cfg: DeltaConfig, otherwise: u64) -> u64 {
    match cfg.mult_x1000 {
        Some(m) => m,
        None => otherwise,
    }
}

/// `d` is the delta that `cfg` selects for these weights.
pub open spec fn chosen_delta(cfg: DeltaConfig, wts: Seq<u64>, d: u64) -> bool {
    match cfg.mode {
        DeltaMode::Average => d == scaled_delta(
            mean_weight(wts, min_of(MEAN_SAMPLE as int, wts.len() as int)),
            mult_or(cfg, 3000),
        ),
        DeltaMode::Quantile => if wts.len() == 0 {
            d == UNIT
        } else {
            exists|sorted: Seq<u64>|
                #[trigger] is_sorted_copy(
                    wts.take(min_of(QUANTILE_SAMPLE as int, wts.len() as int)),
                    sorted,
                ) && d == scaled_delta(
                    quantile_of(sorted, cfg.heavy_target_x1000),
                    mult_or(cfg, 1000),
                )
        },
    }
}

/// Selects delta.
pub fn choose_delta(cfg: &DeltaConfig, wts: &[u64]) -> (d: u64)
    ensures
        chosen_delta(*cfg, wts@, d),
        1 <= d < INF,
{
    match cfg.mode {
        DeltaMode::Quantile => {
            if wts.len() == 0 {
                return UNIT;
            }
            let (base, Ghost(sorted)) = quantile_base(wts, cfg.heavy_target_x1000);
            let mult: u64 = match cfg.mult_x1000 {
                Some(m) => m,
                None => 1000,
            };
            scale_delta(base, mult)
        },
        DeltaMode::Average => {
            let sample: usize = if wts.len() < MEAN_SAMPLE { wts.len() } else { MEAN_SAMPLE };
            let avg: u64 = derive_avg_weight(sample, wts);
            let mult: u64 = match cfg.mult_x1000 {
                Some(m) => m,
                None => 3000,
            };
            scale_delta(avg, mult)
        },
    }
}

/// Binary logarithm of `n`, rounded down; 0 for 0.
pub open spec fn floor_log2(n: nat) -> nat
    decreases n,
{
    if n <= 1 {
        0
    } else {
        1 + floor_log2(n / 2)
    }
}

/// The logarithm of a number is below the number.
pub proof fn lemma_log2_below(x: nat)
    ensures
        floor_log2(x) <= x,
        x >= 1 ==> floor_log2(x) < x,
    decreases x,
{
    if x > 1 {
        lemma_log2_below(x / 2);
    }
}

/// Computes `floor_log2`.
pub fn log2_floor(n: u32) -> (r: u32)
    ensures
        r == floor_log2(n as nat),
{
    let mut x: u32 = n;
    let mut r: u32 = 0;
    proof {
        lemma_log2_below(n as nat);
    }
    while x > 1
        invariant
            r + floor_log2(x as nat) == floor_log2(n as nat),
            floor_log2(n as nat) <= n,
        decreases x,
    {
        x = x / 2;
        r = r + 1;
    }
    r
}

/// The trigger used where none is configured.
pub open spec fn default_trigger(n: u32) -> u32 {
    let est = floor_log2(n as nat) / 2;
    if est < 3 {
        3
    } else if est > 40 {
        40
    } else {
        est as u32
    }
}

/// The choices of `cfg` within their limits: the least share at most 0.9,
/// the largest at least 0.01 above it and at most 0.95.
pub open spec fn adapt_params_of(cfg: DeltaConfig, n: u32) -> AdaptParams {
    let lo = if cfg.heavy_min_x1000 > 900 {
        900
    } else {
        cfg.heavy_min_x1000
    };
    let raised = if cfg.heavy_max_x1000 < lo + 10 {
        (lo + 10) as u32
    } else {
        cfg.heavy_max_x1000
    };
    AdaptParams {
        trigger: match cfg.adapt_trigger {
            Some(t) => t,
            None => default_trigger(n),
        },
        heavy_min_x1000: lo,
        heavy_max_x1000: if raised > 950 {
            950
        } else {
            raised
        },
    }
}

/// Computes `adapt_params_of`.
pub fn adapt_params(cfg: &DeltaConfig, n: u32) -> (p: AdaptParams)
    ensures
        p == adapt_params_of(*cfg, n),
{
    let lo: u32 = if cfg.heavy_min_x1000 > 900 { 900 } else { cfg.heavy_min_x1000 };
    let raised: u32 = if cfg.heavy_max_x1000 < lo + 10 { lo + 10 } else { cfg.heavy_max_x1000 };
    let hi: u32 = if raised > 950 { 950 } else { raised };
    let trigger: u32 = match cfg.adapt_trigger {
        Some(t) => t,
        None => {
            let est: u32 = log2_floor(n) / 2;
            if est < 3 {
                3
            } else if est > 40 {
                40
            } else {
                est
            }
        },
    };
    AdaptParams { trigger, heavy_min_x1000: lo, heavy_max_x1000: hi }
}

/// A restart of an adaptive run.
#[derive(Clone, Copy, Debug, PartialEq, Eq, Structural)]
pub struct RestartEvent {
    /// Number of the restart, from 1.
    pub restart: u32,
    pub action: AdaptAction,
    pub old_delta: u64,
    pub new_delta: u64,
    pub heavy: u64,
    pub relaxations: u64,
}

/// The restarts lead from `first` to `last`: each changes the delta it
/// found as its action says, and the next starts from there.
pub open spec fn restarts_chain(events: Seq<RestartEvent>, first: u64, last: u64) -> bool {
    &&& forall|i: int|
        0 <= i < events.len() ==> {
            let e = #[trigger] events[i];
            &&& e.restart == i + 1
            &&& e.action != AdaptAction::Keep
            &&& e.new_delta == adapted_delta(e.old_delta, e.action)
        }
    &&& forall|i: int, j: int|
        0 <= i && j == i + 1 && j < events.len() ==> (#[trigger] events[j]).old_delta == (
        #[trigger] events[i]).new_delta
    &&& events.len() > 0 ==> events[0].old_delta == first
    &&& last == if events.len() == 0 { first } else { events.last().new_delta }
}

/// Every restart was decided by the counts it records.
pub open spec fn decided(events: Seq<RestartEvent>, p: AdaptParams) -> bool {
    forall|i: int|
        0 <= i < events.len() ==> (#[trigger] events[i]).action == adapt_decision(
            events[i].relaxations,
            events[i].heavy,
            p,
        )
}

/// A chain of restarts stays one when the next restart is added.
pub proof fn lemma_chain_push(events: Seq<RestartEvent>, ev: RestartEvent, first: u64, delta: u64)
    requires
        restarts_chain(events, first, delta),
        ev.restart == events.len() + 1,
        ev.action != AdaptAction::Keep,
        ev.old_delta == delta,
        ev.new_delta == adapted_delta(delta, ev.action),
    ensures
        restarts_chain(events.push(ev), first, ev.new_delta),
{
    let t = events.push(ev);
    assert forall|i: int| 0 <= i < t.len() implies {
        let e = #[trigger] t[i];
        &&& e.restart == i + 1
        &&& e.action != AdaptAction::Keep
        &&& e.new_delta == adapted_delta(e.old_delta, e.action)
    } by {
        if i < events.len() {
            assert(t[i] == events[i]);
        }
    }
    assert forall|i: int, j: int| 0 <= i && j == i + 1 && j < t.len() implies (
    #[trigger] t[j]).old_delta == (#[trigger] t[i]).new_delta by {
        assert(t[i] == events[i]);
        if j < events.len() {
            assert(t[j] == events[j]);
        } else {
            assert(events.last() == events[i]);
        }
    }
    if events.len() > 0 {
        assert(t[0] == events[0]);
    }
}

/// Heavy relaxations per thousand relaxations, 0 where there was none.
pub open spec fn heavy_share(relaxations: u64, heavy: u64) -> u32 {
    if relaxations == 0 {
        0
    } else {
        sat32(heavy * 1000 / (relaxations as int))
    }
}

/// `x`, or the largest 32-bit count where `x` is beyond it.
pub fn clamp32(x: u64) -> (r: u32)
    ensures
        r == sat32(x as int),
{
    if x > u32::MAX as u64 {
        u32::MAX
    } else {
        x as u32
    }
}

/// The counters that a committed run records.
pub open spec fn bucket_stats_of(run: DeltaRun, restarts: u32, delta: u64) -> SsspBucketStats {
    SsspBucketStats {
        buckets_visited: sat32(run.buckets_visited as int),
        light_pass_repeats: sat32(run.light_repeats as int),
        max_bucket_index: sat32(if run.bucket_len == 0 { 0int } else { run.bucket_len - 1 }),
        restarts,
        delta_x1000: sat32((delta / 1000) as int),
        heavy_ratio_x1000: heavy_share(run.relaxations, run.heavy),
    }
}

/// Computes `bucket_stats_of`.
pub fn bucket_stats(run: &DeltaRun, restarts: u32, delta: u64) -> (r: SsspBucketStats)
    requires
        run.relaxations == sat_add(run.light, run.heavy),
    ensures
        r == bucket_stats_of(*run, restarts, delta),
{
    let share: u32 = if run.relaxations == 0 {
        0
    } else {
        let q: u128 = (run.heavy as u128 * 1000) / (run.relaxations as u128);
        proof {
            assert(run.heavy * 1000 / (run.relaxations as int) <= 1000) by (nonlinear_arith)
                requires
                    0 <= run.heavy <= run.relaxations,
                    run.relaxations > 0,
            ;
        }
        q as u32
    };
    SsspBucketStats {
        buckets_visited: clamp32(run.buckets_visited),
        light_pass_repeats: clamp32(run.light_repeats),
        max_bucket_index: clamp32(if run.bucket_len == 0 { 0 } else { run.bucket_len - 1 }),
        restarts,
        delta_x1000: clamp32(delta / 1000),
        heavy_ratio_x1000: share,
    }
}

/// What a committed run of the adaptive engine leaves.
pub open spec fn stoc_done(
    g: Graph,
    cfg: DeltaConfig,
    info: SsspResultInfo,
    stats: SsspBucketStats,
    delta: u64,
    run: DeltaRun,
) -> bool {
    &&& ran_through(run, None)
    &&& run_ok(g, run)
    &&& info.relaxations == run.relaxations
    &&& info.light_relaxations == run.light
    &&& info.heavy_relaxations == run.heavy
    &&& info.settled == run.settled
    &&& info.error_code == 0
    &&& stats == bucket_stats_of(run, stats.restarts, delta)
    &&& stats.restarts <= cfg.adapt_max_restarts
    &&& 1 <= delta < INF
}

/// Some delta that the restarts of `cfg` lead to, from the delta that
/// `cfg` selects, is so small that the bucket of some walk from the source
/// lies beyond the cap.
pub open spec fn cap_met(g: Graph, s: int, cfg: DeltaConfig, wts: Seq<u64>) -> bool {
    exists|events: Seq<RestartEvent>, first: u64, delta: u64|
        chosen_delta(cfg, wts, first) && #[trigger] restarts_chain(events, first, delta)
            && events.len() <= cfg.adapt_max_restarts && decided(
            events,
            adapt_params_of(cfg, g.n as u32),
        ) && cap_witness(
            g,
            s,
            delta,
            bucket_cap(g.n as u32),
        )
}

/// The adaptive delta-stepping engine. Selects delta, runs, and while the
/// share of heavy relaxations calls for it and restarts are left, restarts
/// with the delta changed. Returns `entry_status` of the inputs or, where a
/// bucket index goes beyond the cap, -5; whatever is returned but 0,
/// nothing is written. On 0 the arrays hold the shortest-path distances
/// and a predecessor on a shortest path for every reached vertex; `info`
/// and `stats` hold the counters of the final run, `last_delta` its delta,
/// and `trace` the restarts where `cfg.trace` is set.
pub fn sssp_run_stoc(
    n: u32,
    offsets: &[u32],
    targets: &[u32],
    weights: &[u64],
    source: u32,
    out_dist: &mut Vec<u64>,
    out_pred: &mut Vec<i32>,
    info: &mut SsspResultInfo,
    cfg: &DeltaConfig,
    stats: &mut SsspBucketStats,
    last_delta: &mut u64,
    trace: &mut Vec<RestartEvent>,
) -> (status: i32)
    ensures
        entry_status(n, offsets, targets, weights, source, old(out_dist)@.len(), old(out_pred)@.len())
            != STATUS_OK ==> status == entry_status(
            n,
            offsets,
            targets,
            weights,
            source,
            old(out_dist)@.len(),
            old(out_pred)@.len(),
        ),
        entry_status(n, offsets, targets, weights, source, old(out_dist)@.len(), old(out_pred)@.len())
            == STATUS_OK ==> status == STATUS_OK || status == STATUS_CAP_EXCEEDED,
        status != STATUS_OK ==> {
            &&& final(out_dist)@ == old(out_dist)@
            &&& final(out_pred)@ == old(out_pred)@
            &&& final(trace)@ == old(trace)@
            &&& *final(info) == *old(info)
            &&& *final(stats) == *old(stats)
            &&& *final(last_delta) == *old(last_delta)
        },
        status == STATUS_CAP_EXCEEDED ==> cap_met(
            graph_of(n, offsets, targets, weights),
            source as int,
            *cfg,
            weights@,
        ),
        status == STATUS_OK ==> {
            &&& graph_of(n, offsets, targets, weights).is_solution(source as int, final(out_dist)@)
            &&& graph_of(n, offsets, targets, weights).pred_tight(
                source as int,
                final(out_dist)@,
                final(out_pred)@,
            )
            &&& final(info).settled == count_lt(final(out_dist)@, INF)
            &&& final(info).settled <= 1 + final(info).relaxations
            &&& reach_ok(final(out_dist)@, *final(last_delta), bucket_cap(n))
            &&& exists|run: DeltaRun|
                #[trigger] stoc_done(
                    graph_of(n, offsets, targets, weights),
                    *cfg,
                    *final(info),
                    *final(stats),
                    *final(last_delta),
                    run,
                )
            &&& final(stats).restarts == 0 ==> chosen_delta(*cfg, weights@, *final(last_delta))
            &&& cfg.trace ==> final(trace)@.len() == final(stats).restarts && exists|first: u64|
                chosen_delta(*cfg, weights@, first) && #[trigger] restarts_chain(
                    final(trace)@,
                    first,
                    *final(last_delta),
                )
            &&& cfg.trace ==> decided(final(trace)@, adapt_params_of(*cfg, n))
            &&& !cfg.trace ==> final(trace)@.len() == 0
        },
{
    let status = check_entry(n, offsets, targets, weights, source, out_dist.len(), out_pred.len());
    if status != STATUS_OK {
        return status;
    }
    let g = Csr { n, offsets, targets, weights };
    let first: u64 = choose_delta(cfg, weights);
    let params = adapt_params(cfg, n);
    let mut delta: u64 = first;
    let mut restarts: u32 = 0;
    let mut dist: Vec<u64> = vec![INF; n as usize];
    let mut pred: Vec<i32> = vec![-1i32; n as usize];
    let mut events: Vec<RestartEvent> = Vec::new();
    let ghost mut chain: Seq<RestartEvent> = Seq::empty();
    loop
        invariant
            g@ == graph_of(n, offsets, targets, weights),
            g@.wf(),
            g.n == n,
            source < n,
            dist@.len() == n,
            pred@.len() == n,
            1 <= delta < INF,
            restarts <= cfg.adapt_max_restarts,
            chosen_delta(*cfg, weights@, first),
            restarts == 0 ==> delta == first,
            chain.len() == restarts,
            restarts_chain(chain, first, delta),
            cfg.trace ==> events@ == chain,
            !cfg.trace ==> events@.len() == 0,
            params == adapt_params_of(*cfg, n),
            decided(chain, params),
            entry_status(
                n,
                offsets,
                targets,
                weights,
                source,
                old(out_dist)@.len(),
                old(out_pred)@.len(),
            ) == STATUS_OK,
            out_dist@ == old(out_dist)@,
            out_pred@ == old(out_pred)@,
            trace@ == old(trace)@,
            *info == *old(info),
            *stats == *old(stats),
            *last_delta == *old(last_delta),
        decreases cfg.adapt_max_restarts - restarts,
    {
        let adapt: Option<AdaptParams> = if restarts < cfg.adapt_max_restarts {
            Some(params)
        } else {
            None
        };
        let run = stoc_run_internal(&g, source, delta, &mut dist, &mut pred, None, adapt);
        if run.status != STATUS_OK {
            return run.status;
        }
        match run.action {
            AdaptAction::Keep => {
                *info = SsspResultInfo {
                    relaxations: run.relaxations,
                    light_relaxations: run.light,
                    heavy_relaxations: run.heavy,
                    settled: run.settled,
                    error_code: 0,
                };
                *stats = bucket_stats(&run, restarts, delta);
                *last_delta = delta;
                *out_dist = dist;
                *out_pred = pred;
                *trace = events;
                proof {
                    assert(stoc_done(g@, *cfg, *info, *stats, *last_delta, run));
                }
                return STATUS_OK;
            },
            _ => {
                let nd: u64 = adapt_delta(delta, run.action);
                restarts = restarts + 1;
                let ev = RestartEvent {
                    restart: restarts,
                    action: run.action,
                    old_delta: delta,
                    new_delta: nd,
                    heavy: run.heavy,
                    relaxations: run.relaxations,
                };
                proof {
                    lemma_chain_push(chain, ev, first, delta);
                    let longer = chain.push(ev);
                    assert forall|i: int| 0 <= i < longer.len() implies (#[trigger] longer[i]).action
                        == adapt_decision(longer[i].relaxations, longer[i].heavy, params) by {
                        if i < chain.len() {
                            assert(longer[i] == chain[i]);
                        }
                    }
                    chain = longer;
                }
                if cfg.trace {
                    events.push(ev);
                }
                delta = nd;
            },
        }
    }
}

} // verus!

//! Subtree sizes in the predecessor forest of a collected set, and the
//! pivot-growth loop that repeats the bounded prefix search with a doubled
//! budget until one subtree is large enough.

use vstd::prelude::*;
use crate::graph::{Graph, INF, STATUS_OK, graph_of, entry_status, check_entry};
use crate::basecase::{BaseCaseResult, basecase_truncated, basecase_post, at_least_one, clamp_k};
use crate::stats::{SsspResultInfo, SpecPhase2Stats, SpecInvariantStats};
use crate::subtree::{lemma_subtree_sizes, lemma_count_from_reached};

verus! {

/// Vertex `v` belongs to the collected set: its distance is below `bound`.
pub open spec fn in_set(dist: Seq<u64>, bound: u64, v: int) -> bool {
    0 <= v < dist.len() && dist[v] < bound
}

/// `x`, or the largest 32-bit count where `x` is beyond it.
pub open spec fn sat32(x: int) -> u32 {
    if x > u32::MAX {
        u32::MAX
    } else {
        x as u32
    }
}

/// The sizes after vertex `u` is taken up: a collected vertex counts
/// itself, and hands what it has gathered to its parent where the parent
/// is collected too.
pub open spec fn size_step(dist: Seq<u64>, pred: Seq<i32>, bound: u64, size: Seq<u32>, u: int) -> Seq<
    u32,
> {
    if !in_set(dist, bound, u) {
        size
    } else {
        let s1 = size.update(u, sat32(size[u] + 1));
        let p = pred[u] as int;
        if p >= 0 && in_set(dist, bound, p) {
            s1.update(p, sat32(s1[p] + s1[u]))
        } else {
            s1
        }
    }
}

/// The sizes once the entries of `order` from position `j` on have been
/// taken up, last entry first.
pub open spec fn sizes_from(dist: Seq<u64>, pred: Seq<i32>, bound: u64, order: Seq<u32>, j: int) -> Seq<
    u32,
>
    decreases order.len() - j,
{
    if j >= order.len() {
        Seq::new(dist.len(), |i: int| 0u32)
    } else {
        size_step(dist, pred, bound, sizes_from(dist, pred, bound, order, j + 1), order[j] as int)
    }
}

/// The subtree size of every vertex, gathered over the whole of `order`.
pub open spec fn subtree_sizes(dist: Seq<u64>, pred: Seq<i32>, bound: u64, order: Seq<u32>) -> Seq<
    u32,
> {
    sizes_from(dist, pred, bound, order, 0)
}

/// A collected vertex without a collected parent.
pub open spec fn is_root(dist: Seq<u64>, pred: Seq<i32>, bound: u64, u: int) -> bool {
    in_set(dist, bound, u) && (pred[u] < 0 || !in_set(dist, bound, pred[u] as int))
}

/// The roots among `order`, in order.
pub open spec fn roots_of(dist: Seq<u64>, pred: Seq<i32>, bound: u64, order: Seq<u32>) -> Seq<u32>
    decreases order.len(),
{
    if order.len() == 0 {
        Seq::empty()
    } else {
        let r = roots_of(dist, pred, bound, order.drop_last());
        if is_root(dist, pred, bound, order.last() as int) {
            r.push(order.last())
        } else {
            r
        }
    }
}

/// The largest of `s`, 0 where it is empty.
pub open spec fn max_of(s: Seq<u32>) -> u32
    decreases s.len(),
{
    if s.len() == 0 {
        0
    } else {
        let m = max_of(s.drop_last());
        if s.last() > m {
            s.last()
        } else {
            m
        }
    }
}

/// The arrays and the order fit together: one predecessor per distance,
/// and every vertex named lies in the arrays.
pub open spec fn forest_ok(dist: Seq<u64>, pred: Seq<i32>, order: Seq<u32>) -> bool {
    &&& pred.len() == dist.len()
    &&& forall|i: int| 0 <= i < order.len() ==> (#[trigger] order[i]) < dist.len()
    &&& forall|v: int| 0 <= v < pred.len() ==> (#[trigger] pred[v]) < dist.len()
}

/// The roots of the collected set among `order`, and the subtree size of
/// each. Sizes are gathered by walking `order` backwards, so that with a
/// pop order every child is taken up before its parent.
pub fn compute_subtree_sizes(dist: &[u64], pred: &[i32], bound: u64, order: &[u32]) -> (res: (
    Vec<u32>,
    Vec<u32>,
))
    requires
        forest_ok(dist@, pred@, order@),
    ensures
        res.0@ == roots_of(dist@, pred@, bound, order@),
        res.1@.len() == res.0@.len(),
        forall|i: int|
            0 <= i < res.0@.len() ==> (#[trigger] res.1@[i]) == subtree_sizes(
                dist@,
                pred@,
                bound,
                order@,
            )[res.0@[i] as int],
{
    let n: usize = dist.len();
    let len: usize = order.len();
    let mut size: Vec<u32> = vec![0u32; n];
    let mut j: usize = len;
    proof {
        assert(size@ =~= sizes_from(dist@, pred@, bound, order@, len as int));
    }
    while j > 0
        invariant
            j <= len,
            len == order@.len(),
            n == dist@.len(),
            forest_ok(dist@, pred@, order@),
            size@.len() == n,
            size@ == sizes_from(dist@, pred@, bound, order@, j as int),
        decreases j,
    {
        j -= 1;
        let u: usize = order[j] as usize;
        if dist[u] < bound {
            let grown: u32 = if size[u] == u32::MAX { u32::MAX } else { size[u] + 1 };
            size[u] = grown;
            let p: i32 = pred[u];
            if p >= 0 {
                let pi: usize = p as usize;
                if dist[pi] < bound {
                    let old: u32 = size[pi];
                    let sum: u32 = if old > u32::MAX - grown { u32::MAX } else { old + grown };
                    size[pi] = sum;
                }
            }
        }
        proof {
            assert(size@ =~= size_step(
                dist@,
                pred@,
                bound,
                sizes_from(dist@, pred@, bound, order@, j + 1),
                order@[j as int] as int,
            ));
        }
    }
    let mut roots: Vec<u32> = Vec::new();
    let mut root_sizes: Vec<u32> = Vec::new();
    let mut i: usize = 0;
    proof {
        assert(order@.take(0) =~= Seq::<u32>::empty());
    }
    while i < len
        invariant
            i <= len,
            len == order@.len(),
            n == dist@.len(),
            forest_ok(dist@, pred@, order@),
            size@.len() == n,
            size@ == subtree_sizes(dist@, pred@, bound, order@),
            roots@ == roots_of(dist@, pred@, bound, order@.take(i as int)),
            root_sizes@.len() == roots@.len(),
            forall|t: int|
                0 <= t < roots@.len() ==> (#[trigger] roots@[t]) < n && root_sizes@[t]
                    == size@[roots@[t] as int],
        decreases len - i,
    {
        let u: usize = order[i] as usize;
        proof {
            assert(order@.take(i + 1).drop_last() =~= order@.take(i as int));
            assert(order@.take(i + 1).last() == order@[i as int]);
        }
        if dist[u] < bound {
            let p: i32 = pred[u];
            let rooted: bool = if p < 0 {
                true
            } else {
                !(dist[p as usize] < bound)
            };
            if rooted {
                let ghost r0 = roots@;
                let ghost z0 = root_sizes@;
                roots.push(order[i]);
                root_sizes.push(size[u]);
                proof {
                    assert forall|t: int| 0 <= t < roots@.len() implies (#[trigger] roots@[t])
                        < n && root_sizes@[t] == size@[roots@[t] as int] by {
                        if t < r0.len() {
                            assert(roots@[t] == r0[t]);
                            assert(root_sizes@[t] == z0[t]);
                        }
                    }
                }
            }
        }
        i += 1;
    }
    proof {
        assert(order@.take(len as int) =~= order@);
    }
    (roots, root_sizes)
}

/// Computes `max_of`.
pub fn max_size(sizes: &Vec<u32>) -> (m: u32)
    ensures
        m == max_of(sizes@),
{
    let mut m: u32 = 0;
    let mut i: usize = 0;
    proof {
        assert(sizes@.take(0) =~= Seq::<u32>::empty());
    }
    while i < sizes.len()
        invariant
            i <= sizes@.len(),
            m == max_of(sizes@.take(i as int)),
        decreases sizes@.len() - i,
    {
        proof {
            assert(sizes@.take(i + 1).drop_last() =~= sizes@.take(i as int));
        }
        if sizes[i] > m {
            m = sizes[i];
        }
        i += 1;
    }
    proof {
        assert(sizes@.take(sizes@.len() as int) =~= sizes@);
    }
    m
}

/// Records one invariant check where checking is enabled: one more check,
/// and one more failure where `cond` is false.
pub fn inv_check(stats: &mut SpecInvariantStats, enabled: bool, cond: bool)
    requires
        old(stats).failures <= old(stats).checks < u64::MAX,
    ensures
        final(stats).checks == old(stats).checks + if enabled { 1int } else { 0int },
        final(stats).failures == old(stats).failures + if enabled && !cond { 1int } else { 0int },
{
    if enabled {
        stats.checks = stats.checks + 1;
        if !cond {
            stats.failures = stats.failures + 1;
        }
    }
}

/// Options of the pivot-growth loop.
#[derive(Clone, Copy, Debug, PartialEq, Eq, Structural)]
pub struct PivotConfig {
    /// Budget of the first attempt; 0 counts as 1.
    pub k: u32,
    /// Most attempts made; 0 counts as 1.
    pub max_attempts: u32,
    /// Whether the invariant checks are counted.
    pub check: bool,
}

impl PivotConfig {
    /// The options used where none are given: `k` 1024, 8 attempts, no checks.
    pub fn new() -> (c: Self)
        ensures
            c.k == 1024,
            c.max_attempts == 8,
            !c.check,
    {
        Self { k: 1024, max_attempts: 8, check: false }
    }
}

/// Twice `k`, but at most `n`.
pub open spec fn grow_k(k: u32, n: u32) -> u32 {
    if 2 * k >= n {
        n
    } else {
        (2 * k) as u32
    }
}

/// The budget of attempt `i`, counted from 0, where the first is `k0`.
pub open spec fn pivot_k(k0: u32, n: u32, i: nat) -> u32
    decreases i,
{
    if i == 0 {
        k0
    } else {
        grow_k(pivot_k(k0, n, (i - 1) as nat), n)
    }
}

/// Computes `grow_k`.
pub fn next_k(k: u32, n: u32) -> (r: u32)
    ensures
        r == grow_k(k, n),
{
    if k >= n || k > n - k {
        n
    } else {
        let d: u32 = k + k;
        if d >= n {
            n
        } else {
            d
        }
    }
}

/// The subtree sizes of the roots among `order`.
pub open spec fn root_sizes_of(dist: Seq<u64>, pred: Seq<i32>, bound: u64, order: Seq<u32>) -> Seq<
    u32,
> {
    let roots = roots_of(dist, pred, bound, order);
    let sizes = subtree_sizes(dist, pred, bound, order);
    Seq::new(roots.len(), |i: int| sizes[roots[i] as int])
}

/// The bounded prefix search with budget `k` can leave a collected set
/// that misses the criterion: its largest subtree is `top`, below `k`, and
/// it does not hold every vertex.
pub open spec fn attempt_missed(g: Graph, s: int, k: u32, top: u32) -> bool {
    exists|dist: Seq<u64>, pred: Seq<i32>, order: Seq<u32>, res: BaseCaseResult|
        #[trigger] basecase_post(g, s, k, INF, dist, pred, order, res) && top == max_of(
            root_sizes_of(dist, pred, res.new_bound, order),
        ) && top < k && res.collected < g.n
}

/// Attempt `i`, counted from 0, missed the criterion with a budget below
/// the vertex count and a largest subtree of at most `most`.
pub open spec fn missed_at(g: Graph, s: int, k0: u32, i: int, most: u32) -> bool {
    &&& pivot_k(k0, g.n as u32, i as nat) < g.n
    &&& exists|top: u32|
        #[trigger] attempt_missed(g, s, pivot_k(k0, g.n as u32, i as nat), top) && top <= most
}

/// `most` is the largest subtree of one of the first `upto` attempts, each of which missed.
pub open spec fn most_of_missed(g: Graph, s: int, k0: u32, upto: int, most: u32) -> bool {
    exists|i: int| 0 <= i < upto && #[trigger] attempt_missed(g, s, pivot_k(k0, g.n as u32, i as nat), most)
}

/// The arrays are what the last attempt of a pivot loop left, and the
/// counters agree with that attempt; the largest subtree recorded is the
/// largest of all attempts.
pub open spec fn pivot_last(
    g: Graph,
    s: int,
    k0: u32,
    dist: Seq<u64>,
    pred: Seq<i32>,
    stats: SpecPhase2Stats,
) -> bool {
    exists|order: Seq<u32>, res: BaseCaseResult|
        {
            &&& #[trigger] basecase_post(g, s, stats.final_k, INF, dist, pred, order, res)
            &&& res.collected == stats.collected
            &&& res.new_bound == stats.bound
            &&& stats.max_subtree >= max_of(root_sizes_of(dist, pred, res.new_bound, order))
            &&& stats.max_subtree == max_of(root_sizes_of(dist, pred, res.new_bound, order))
                || most_of_missed(g, s, k0, stats.attempts - 1, stats.max_subtree)
            &&& stats.success == 1 <==> (max_of(root_sizes_of(dist, pred, res.new_bound, order))
                >= stats.final_k || stats.collected >= g.n)
        }
}

/// An attempt that missed with a largest subtree of at most `a` did so with one of at most `b`.
pub proof fn lemma_missed_more(g: Graph, s: int, k0: u32, upto: int, a: u32, b: u32)
    requires
        a <= b,
        forall|i: int| 0 <= i < upto ==> #[trigger] missed_at(g, s, k0, i, a),
    ensures
        forall|i: int| 0 <= i < upto ==> #[trigger] missed_at(g, s, k0, i, b),
{
    assert forall|i: int| 0 <= i < upto implies #[trigger] missed_at(g, s, k0, i, b) by {
        assert(missed_at(g, s, k0, i, a));
        let top = choose|top: u32|
            #[trigger] attempt_missed(g, s, pivot_k(k0, g.n as u32, i as nat), top) && top <= a;
        assert(attempt_missed(g, s, pivot_k(k0, g.n as u32, i as nat), top) && top <= b);
    }
}

/// One attempt of the pivot loop: the bounded prefix search from `source`
/// with budget `k` and no bound, and the sizes of the subtrees of what it
/// collected. Returns the result of the search, the largest subtree, the
/// number of roots and the relaxations accepted. Where `check` is set,
/// `seen` counts a check for every root, one for the largest subtree where
/// there is a root, and one for the collected count; none of them fails.
fn pivot_attempt(
    n: u32,
    offsets: &[u32],
    targets: &[u32],
    weights: &[u64],
    source: u32,
    k: u32,
    out_dist: &mut Vec<u64>,
    out_pred: &mut Vec<i32>,
    pop_order: &mut Vec<u32>,
    seen: &mut SpecInvariantStats,
    check: bool,
) -> (r: (BaseCaseResult, u32, u32, u64))
    requires
        graph_of(n, offsets, targets, weights).wf(),
        source < n,
        old(out_dist)@.len() == n,
        old(out_pred)@.len() == n,
        old(seen).failures <= old(seen).checks,
        old(seen).checks + n + 2 < u64::MAX,
    ensures
        final(out_dist)@.len() == n,
        final(out_pred)@.len() == n,
        basecase_post(
            graph_of(n, offsets, targets, weights),
            source as int,
            k,
            INF,
            final(out_dist)@,
            final(out_pred)@,
            final(pop_order)@,
            r.0,
        ),
        r.1 == max_of(root_sizes_of(final(out_dist)@, final(out_pred)@, r.0.new_bound, final(pop_order)@)),
        r.1 <= r.0.collected <= n,
        r.3 <= targets@.len(),
        targets@.len() <= 0xffff_ffff,
        final(seen).failures <= final(seen).checks <= old(seen).checks + n + 2,
        final(seen).failures == old(seen).failures,
        !check ==> *final(seen) == *old(seen),
{
    let mut relax: u64 = 0;
    let ghost f0 = seen.failures;
    let res = basecase_truncated(
        n,
        offsets,
        targets,
        weights,
        source,
        k,
        INF,
        out_dist,
        out_pred,
        pop_order,
        &mut relax,
    );
    let (roots, sizes) = compute_subtree_sizes(
        out_dist.as_slice(),
        out_pred.as_slice(),
        res.new_bound,
        pop_order.as_slice(),
    );
    proof {
        lemma_roots_len(out_dist@, out_pred@, res.new_bound, pop_order@);
        crate::frontier::lemma_distinct_bounded(pop_order@, n as nat);
        assert(sizes@ =~= root_sizes_of(out_dist@, out_pred@, res.new_bound, pop_order@));
        lemma_subtree_sizes(out_dist@, out_pred@, res.new_bound, pop_order@);
        lemma_count_from_reached(out_dist@, out_pred@, res.new_bound, pop_order@);
        crate::basecase::lemma_count_reached_bound(pop_order@, out_dist@);
        lemma_roots_collected(out_dist@, out_pred@, res.new_bound, pop_order@);
    }
    let local_max: u32 = max_size(&sizes);
    if check {
        let ghost c0 = seen.checks;
        let mut r: usize = 0;
        while r < roots.len()
            invariant
                r <= roots@.len(),
                roots@.len() <= n,
                out_dist@.len() == n,
                forall|t: int| 0 <= t < roots@.len() ==> (#[trigger] roots@[t]) < n,
                forall|t: int|
                    0 <= t < roots@.len() ==> in_set(out_dist@, res.new_bound, (#[trigger] roots@[t]) as int),
                seen.failures == f0,
                seen.failures <= seen.checks <= c0 + r,
                c0 + n + 2 < u64::MAX,
            decreases roots@.len() - r,
        {
            let d: u64 = out_dist[roots[r] as usize];
            inv_check(seen, true, d < INF && d <= res.new_bound);
            r += 1;
        }
        if sizes.len() > 0 {
            inv_check(seen, true, local_max <= res.collected);
        }
        inv_check(seen, true, res.collected as u64 <= k as u64 + 1);
    }
    let found: u32 = if roots.len() > u32::MAX as usize {
        u32::MAX
    } else {
        roots.len() as u32
    };
    (res, local_max, found, relax)
}

/// The pivot-growth loop. Each attempt runs the bounded prefix search from
/// `source` without a bound and sizes the subtrees of the collected set;
/// the loop ends with success where a subtree reaches the budget or the
/// whole graph is collected, and else doubles the budget, up to the vertex
/// count, until the attempts are spent or the budget has reached the
/// vertex count. The result record reports the collected count as settled
/// and the success flag in its error code.
#[verifier::spinoff_prover]
#[verifier::rlimit(50)]
pub fn sssp_run_spec_phase2(
    n: u32,
    offsets: &[u32],
    targets: &[u32],
    weights: &[u64],
    source: u32,
    out_dist: &mut Vec<u64>,
    out_pred: &mut Vec<i32>,
    info: &mut SsspResultInfo,
    cfg: &PivotConfig,
    stats: &mut SpecPhase2Stats,
    checks: &mut SpecInvariantStats,
) -> (status: i32)
    ensures
        status == entry_status(
            n,
            offsets,
            targets,
            weights,
            source,
            old(out_dist)@.len(),
            old(out_pred)@.len(),
        ),
        status != STATUS_OK ==> {
            &&& final(out_dist)@ == old(out_dist)@
            &&& final(out_pred)@ == old(out_pred)@
            &&& *final(info) == *old(info)
            &&& *final(stats) == *old(stats)
            &&& *final(checks) == *old(checks)
        },
        status == STATUS_OK ==> {
            &&& pivot_last(
                graph_of(n, offsets, targets, weights),
                source as int,
                at_least_one(cfg.k),
                final(out_dist)@,
                final(out_pred)@,
                *final(stats),
            )
            &&& forall|i: int|
                0 <= i < final(stats).attempts - 1 ==> #[trigger] missed_at(
                    graph_of(n, offsets, targets, weights),
                    source as int,
                    at_least_one(cfg.k),
                    i,
                    final(stats).max_subtree,
                )
            &&& final(stats).max_subtree <= n
            &&& 1 <= final(stats).attempts <= at_least_one(cfg.max_attempts)
            &&& final(stats).final_k == pivot_k(
                at_least_one(cfg.k),
                n,
                (final(stats).attempts - 1) as nat,
            )
            &&& final(stats).success == 0 || final(stats).success == 1
            &&& final(stats).success == 0 ==> final(stats).attempts == at_least_one(
                cfg.max_attempts,
            ) || final(stats).final_k >= n
            &&& final(stats).relaxations <= final(stats).attempts * targets@.len()
            &&& final(info).relaxations == final(stats).relaxations
            &&& final(info).light_relaxations == 0
            &&& final(info).heavy_relaxations == 0
            &&& final(info).settled == final(stats).collected
            &&& final(info).error_code == final(stats).success
            &&& final(checks).failures == 0
            &&& !cfg.check ==> final(checks).checks == 0
        },
{
    let status = check_entry(n, offsets, targets, weights, source, out_dist.len(), out_pred.len());
    if status != STATUS_OK {
        return status;
    }
    let ghost g = graph_of(n, offsets, targets, weights);
    let k0: u32 = clamp_k(cfg.k);
    let attempt_max: u32 = clamp_k(cfg.max_attempts);
    let mut k: u32 = k0;
    let mut attempts: u32 = 0;
    let mut total_relax: u64 = 0;
    let mut final_collected: u32 = 0;
    let mut final_bound: u64 = INF;
    let mut max_subtree_any: u32 = 0;
    let mut roots_examined_any: u32 = 0;
    let mut success: i32 = 0;
    let mut seen = SpecInvariantStats { checks: 0, failures: 0 };
    let mut pop_order: Vec<u32> = Vec::new();
    let ghost mut last_res = BaseCaseResult { outcome: 0, new_bound: 0, collected: 0 };
    let ghost m = targets@.len() as int;
    loop
        invariant_except_break
            attempts < attempt_max,
            success == 0,
            k == pivot_k(k0, n, attempts as nat),
            forall|i: int|
                0 <= i < attempts ==> #[trigger] missed_at(g, source as int, k0, i, max_subtree_any),
            if attempts == 0 {
                max_subtree_any == 0
            } else {
                most_of_missed(g, source as int, k0, attempts as int, max_subtree_any)
            },
        invariant
            n == g.n,
            max_subtree_any <= n,
            g == graph_of(n, offsets, targets, weights),
            g.wf(),
            m == targets@.len(),
            m <= 0xffff_ffff,
            source < n,
            out_dist@.len() == n,
            out_pred@.len() == n,
            k0 == at_least_one(cfg.k),
            attempt_max == at_least_one(cfg.max_attempts),
            attempts <= attempt_max,
            total_relax <= attempts * m,
            seen.failures <= seen.checks <= attempts * (n + 2),
            seen.failures == 0,
            !cfg.check ==> seen.checks == 0,
        ensures
            1 <= attempts <= attempt_max,
            k == pivot_k(k0, n, (attempts - 1) as nat),
            success == 0 || success == 1,
            success == 0 ==> attempts == attempt_max || k >= n,
            basecase_post(g, source as int, k, INF, out_dist@, out_pred@, pop_order@, last_res),
            last_res.collected == final_collected,
            last_res.new_bound == final_bound,
            max_subtree_any >= max_of(
                root_sizes_of(out_dist@, out_pred@, last_res.new_bound, pop_order@),
            ),
            max_subtree_any == max_of(
                root_sizes_of(out_dist@, out_pred@, last_res.new_bound, pop_order@),
            ) || most_of_missed(g, source as int, k0, attempts - 1, max_subtree_any),
            forall|i: int|
                0 <= i < attempts - 1 ==> #[trigger] missed_at(g, source as int, k0, i, max_subtree_any),
            total_relax <= attempts * m,
            max_subtree_any <= n,
            success == 1 <==> (max_of(
                root_sizes_of(out_dist@, out_pred@, last_res.new_bound, pop_order@),
            ) >= k || final_collected >= n),
        decreases attempt_max - attempts,
    {
        attempts += 1;
        proof {
            assert(attempts * m == (attempts - 1) * m + m) by (nonlinear_arith);
            assert(attempts * (n + 2) == (attempts - 1) * (n + 2) + (n + 2)) by (nonlinear_arith);
            assert(attempts * m <= 0xffff_ffff * 0xffff_ffff) by (nonlinear_arith)
                requires
                    0 <= attempts <= 0xffff_ffff,
                    0 <= m <= 0xffff_ffff,
            ;
            assert(attempts * (n + 2) <= 0xffff_ffff * (n + 2)) by (nonlinear_arith)
                requires
                    0 <= attempts <= 0xffff_ffff,
                    0 <= n + 2,
            ;
        }
        let (res, local_max, found, relax) = pivot_attempt(
            n,
            offsets,
            targets,
            weights,
            source,
            k,
            out_dist,
            out_pred,
            &mut pop_order,
            &mut seen,
            cfg.check,
        );
        proof {
            last_res = res;
        }
        total_relax = total_relax + relax;
        final_collected = res.collected;
        final_bound = res.new_bound;
        roots_examined_any = if roots_examined_any > u32::MAX - found {
            u32::MAX
        } else {
            roots_examined_any + found
        };
        let ghost most0 = max_subtree_any;
        if local_max > max_subtree_any {
            max_subtree_any = local_max;
        }
        proof {
            lemma_missed_more(g, source as int, k0, attempts - 1, most0, max_subtree_any);
            if max_subtree_any != local_max {
                assert(most_of_missed(g, source as int, k0, attempts - 1, most0));
            }
        }
        if local_max >= k || res.collected >= n {
            success = 1;
            break ;
        }
        if attempts >= attempt_max || k >= n {
            break ;
        }
        proof {
            assert(basecase_post(g, source as int, k, INF, out_dist@, out_pred@, pop_order@, res));
            assert(attempt_missed(g, source as int, pivot_k(k0, n, (attempts - 1) as nat), local_max));
            assert(missed_at(g, source as int, k0, attempts - 1, max_subtree_any));
            if max_subtree_any != local_max {
                let i = choose|i: int|
                    0 <= i < attempts - 1 && #[trigger] attempt_missed(
                        g,
                        source as int,
                        pivot_k(k0, n, i as nat),
                        most0,
                    );
                assert(0 <= i < attempts && attempt_missed(
                    g,
                    source as int,
                    pivot_k(k0, n, i as nat),
                    max_subtree_any,
                ));
            }
        }
        k = next_k(k, n);
    }
    *stats = SpecPhase2Stats {
        attempts,
        success,
        final_k: k,
        collected: final_collected,
        max_subtree: max_subtree_any,
        roots_examined: roots_examined_any,
        relaxations: total_relax,
        bound: final_bound,
    };
    *info = SsspResultInfo {
        relaxations: total_relax,
        light_relaxations: 0,
        heavy_relaxations: 0,
        settled: final_collected,
        error_code: success,
    };
    *checks = seen;
    proof {
        assert(basecase_post(
            g,
            source as int,
            stats.final_k,
            INF,
            out_dist@,
            out_pred@,
            pop_order@,
            last_res,
        ));
        assert(pivot_last(g, source as int, k0, out_dist@, out_pred@, *stats));
    }
    STATUS_OK
}

/// Every root among `order` is collected.
pub proof fn lemma_roots_collected(dist: Seq<u64>, pred: Seq<i32>, bound: u64, order: Seq<u32>)
    ensures
        forall|t: int|
            0 <= t < roots_of(dist, pred, bound, order).len() ==> in_set(
                dist,
                bound,
                (#[trigger] roots_of(dist, pred, bound, order)[t]) as int,
            ),
    decreases order.len(),
{
    if order.len() > 0 {
        let front = roots_of(dist, pred, bound, order.drop_last());
        let roots = roots_of(dist, pred, bound, order);
        lemma_roots_collected(dist, pred, bound, order.drop_last());
        assert forall|t: int| 0 <= t < roots.len() implies in_set(dist, bound, (#[trigger] roots[t]) as int) by {
            if t < front.len() {
                assert(roots[t] == front[t]);
            }
        }
    }
}

/// The roots among `order` are vertices of `order`, no more than it has entries.
pub proof fn lemma_roots_len(dist: Seq<u64>, pred: Seq<i32>, bound: u64, order: Seq<u32>)
    requires
        forall|i: int| 0 <= i < order.len() ==> (#[trigger] order[i]) < dist.len(),
    ensures
        roots_of(dist, pred, bound, order).len() <= order.len(),
        forall|t: int|
            0 <= t < roots_of(dist, pred, bound, order).len() ==> (#[trigger] roots_of(
                dist,
                pred,
                bound,
                order,
            )[t]) < dist.len(),
    decreases order.len(),
{
    if order.len() > 0 {
        let q = order.drop_last();
        assert forall|i: int| 0 <= i < q.len() implies (#[trigger] q[i]) < dist.len() by {
            assert(q[i] == order[i]);
        }
        lemma_roots_len(dist, pred, bound, q);
    }
}

} // verus!

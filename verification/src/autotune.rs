//! The delta autotuner: times a truncated run for each candidate
//! multiplier and gives the full run the fastest one.

use vstd::prelude::*;
use crate::graph::{Csr, INF, STATUS_OK, STATUS_CAP_EXCEEDED, graph_of, entry_status, check_entry};
use crate::chain::count_lt;
use crate::delta_choice::{
    DeltaMode, MEAN_SAMPLE, derive_avg_weight, mean_weight, min_of, quantile_base, scale_delta,
    scaled_delta,
};
use crate::delta::{
    DeltaConfig, DeltaRun, RestartEvent, run_ok, ran_through, cap_witness, cap_met, bucket_cap, reach_ok,
    stoc_done, chosen_delta, stoc_run_internal, sssp_run_stoc,
};
use crate::stats::{SsspResultInfo, SsspBucketStats};

verus! {

/// A point in time of the monotonic clock.
#[verifier::external_type_specification]
#[verifier::external_body]
pub struct ExInstant(std::time::Instant);

/// Reads the monotonic clock with `std::time::Instant::now`. Nothing is
/// claimed of the value.
#[verifier::external_body]
fn clock_now() -> (t: std::time::Instant) {
    std::time::Instant::now()
}

/// The time passed since `t`, by `std::time::Instant::elapsed`. Nothing is
/// claimed of the value.
#[verifier::external_body]
fn clock_elapsed(t: &std::time::Instant) -> (d: std::time::Duration) {
    t.elapsed()
}

/// The span in nanoseconds, by `std::time::Duration::as_nanos`. Nothing is
/// claimed of the value.
#[verifier::external_body]
fn duration_nanos(d: &std::time::Duration) -> (ns: u128) {
    d.as_nanos()
}

/// `ns`, or the largest 64-bit count where `ns` is beyond it.
pub fn clamp_nanos(ns: u128) -> (r: u64)
    ensures
        r == if ns > u64::MAX { u64::MAX } else { ns as u64 },
{
    if ns > u64::MAX as u128 {
        u64::MAX
    } else {
        ns as u64
    }
}

/// Options of the autotuner.
pub struct AutotuneConfig {
    /// Candidate multipliers, in thousandths.
    pub set: Vec<u64>,
    /// Vertices to settle in each timed run.
    pub limit: u32,
}

impl AutotuneConfig {
    /// The options used where none are given: multipliers 1.5, 2, 3, 4 and 6, limit 2048.
    pub fn new() -> (c: Self)
        ensures
            c.set@ == seq![1500u64, 2000, 3000, 4000, 6000],
            c.limit == 2048,
    {
        let mut set: Vec<u64> = Vec::new();
        set.push(1500);
        set.push(2000);
        set.push(3000);
        set.push(4000);
        set.push(6000);
        proof {
            assert(set@ =~= seq![1500u64, 2000, 3000, 4000, 6000]);
        }
        Self { set, limit: 2048 }
    }
}

/// The positive entries of `set`, in order.
pub open spec fn positive_of(set: Seq<u64>) -> Seq<u64>
    decreases set.len(),
{
    if set.len() == 0 {
        Seq::empty()
    } else {
        let rest = positive_of(set.drop_last());
        if set.last() > 0 {
            rest.push(set.last())
        } else {
            rest
        }
    }
}

/// The multipliers that are tried: the positive entries of `set`, or 3.0 alone where there is none.
pub open spec fn candidates_of(set: Seq<u64>) -> Seq<u64> {
    if positive_of(set).len() == 0 {
        seq![3000u64]
    } else {
        positive_of(set)
    }
}

/// Computes `candidates_of`.
pub fn parse_autotune_set(set: &Vec<u64>) -> (c: Vec<u64>)
    ensures
        c@ == candidates_of(set@),
        c@.len() >= 1,
{
    let mut c: Vec<u64> = Vec::new();
    let mut i: usize = 0;
    proof {
        assert(set@.take(0) =~= Seq::<u64>::empty());
    }
    while i < set.len()
        invariant
            i <= set@.len(),
            c@ == positive_of(set@.take(i as int)),
        decreases set@.len() - i,
    {
        proof {
            assert(set@.take(i + 1).drop_last() =~= set@.take(i as int));
        }
        if set[i] > 0 {
            c.push(set[i]);
        }
        i += 1;
    }
    proof {
        assert(set@.take(set@.len() as int) =~= set@);
    }
    if c.len() == 0 {
        c.push(3000);
        proof {
            assert(c@ =~= seq![3000u64]);
        }
    }
    c
}

/// `best` is the first of the fastest among the runs that succeeded, or 0 where none did.
pub open spec fn is_fastest(times: Seq<Option<u64>>, best: int) -> bool {
    &&& 0 <= best
    &&& times.len() > 0 ==> best < times.len()
    &&& (forall|i: int| 0 <= i < times.len() ==> times[i] is None || times[i]->0 == u64::MAX)
        ==> best == 0
    &&& (exists|i: int| 0 <= i < times.len() && times[i] is Some && times[i]->0 < u64::MAX) ==> {
        &&& times[best] is Some
        &&& times[best]->0 < u64::MAX
        &&& forall|i: int|
            0 <= i < times.len() && (#[trigger] times[i]) is Some ==> times[best]->0 <= times[i]->0
        &&& forall|i: int|
            0 <= i < best && (#[trigger] times[i]) is Some ==> times[best]->0 < times[i]->0
    }
}

/// Picks the candidate to run in full: the first whose timed run took the
/// least time, among those that succeeded; the first candidate where none did.
pub fn pick_fastest(times: &Vec<Option<u64>>) -> (best: usize)
    ensures
        is_fastest(times@, best as int),
{
    let mut best: usize = 0;
    let mut best_time: u64 = u64::MAX;
    let mut i: usize = 0;
    while i < times.len()
        invariant
            i <= times@.len(),
            best <= i,
            best == 0 || best < i,
            best_time == u64::MAX ==> best == 0 && forall|j: int|
                0 <= j < i ==> (#[trigger] times@[j]) is None || times@[j]->0 == u64::MAX,
            best_time < u64::MAX ==> {
                &&& best < i
                &&& times@[best as int] == Some(best_time)
                &&& forall|j: int|
                    0 <= j < i && (#[trigger] times@[j]) is Some ==> best_time <= times@[j]->0
                &&& forall|j: int|
                    0 <= j < best && (#[trigger] times@[j]) is Some ==> best_time < times@[j]->0
            },
        decreases times@.len() - i,
    {
        match times[i] {
            Some(t) => {
                if t < best_time {
                    best_time = t;
                    best = i;
                }
            },
            None => {},
        }
        i += 1;
    }
    best
}

/// Times a truncated run of `limit` settled vertices for each candidate
/// multiplier of `base`. A run that fails has no time.
fn probe(g: &Csr, source: u32, base: u64, candidates: &Vec<u64>, limit: u32) -> (times: Vec<
    Option<u64>,
>)
    requires
        g@.wf(),
        source < g.n,
    ensures
        times@.len() == candidates@.len(),
{
    let n: usize = g.n as usize;
    let mut tmp_dist: Vec<u64> = vec![0u64; n];
    let mut tmp_pred: Vec<i32> = vec![0i32; n];
    let mut times: Vec<Option<u64>> = Vec::new();
    let mut i: usize = 0;
    while i < candidates.len()
        invariant
            i <= candidates@.len(),
            times@.len() == i,
            g@.wf(),
            source < g.n,
            tmp_dist@.len() == g@.n,
            tmp_pred@.len() == g@.n,
        decreases candidates@.len() - i,
    {
        let delta: u64 = scale_delta(base, candidates[i]);
        let start = clock_now();
        let run = stoc_run_internal(
            g,
            source,
            delta,
            &mut tmp_dist,
            &mut tmp_pred,
            Some(limit),
            None,
        );
        if run.status != STATUS_OK {
            times.push(None);
        } else {
            let span = clock_elapsed(&start);
            let elapsed: u64 = clamp_nanos(duration_nanos(&span));
            times.push(Some(elapsed));
        }
        i += 1;
    }
    times
}

/// The delta that candidate `i` of `set` gives for these weights: the
/// mean of the sampled weights times the candidate.
pub open spec fn candidate_delta(wts: Seq<u64>, set: Seq<u64>, i: int) -> u64 {
    scaled_delta(mean_weight(wts, min_of(MEAN_SAMPLE as int, wts.len() as int)), candidates_of(set)[i])
}

/// The autotuned engine without adaptation: picks the fastest candidate
/// multiplier of the mean weight by timed truncated runs, then runs once
/// in full with the delta it gives. The timed runs leave no trace. Returns
/// `entry_status` of the inputs or, where the full run takes a bucket index
/// beyond the cap, -5; whatever is returned but 0, nothing is written. On
/// 0 the arrays hold the shortest-path distances and a predecessor on a
/// shortest path for every reached vertex, and `used_delta` the delta of
/// the full run, which one of the candidates gives.
pub fn sssp_run_stoc_autotune(
    n: u32,
    offsets: &[u32],
    targets: &[u32],
    weights: &[u64],
    source: u32,
    out_dist: &mut Vec<u64>,
    out_pred: &mut Vec<i32>,
    info: &mut SsspResultInfo,
    cfg: &AutotuneConfig,
    used_delta: &mut u64,
) -> (status: i32)
    ensures
        entry_status(n, offsets, targets, weights, source, old(out_dist)@.len(), old(out_pred)@.len())
            != STATUS_OK ==> status == entry_status(
            n,
            offsets,
            targets,
            weights,
            source,
            old(out_dist)@.len(),
            old(out_pred)@.len(),
        ),
        entry_status(n, offsets, targets, weights, source, old(out_dist)@.len(), old(out_pred)@.len())
            == STATUS_OK ==> status == STATUS_OK || status == STATUS_CAP_EXCEEDED,
        status != STATUS_OK ==> {
            &&& final(out_dist)@ == old(out_dist)@
            &&& final(out_pred)@ == old(out_pred)@
            &&& *final(info) == *old(info)
            &&& *final(used_delta) == *old(used_delta)
        },
        status == STATUS_CAP_EXCEEDED ==> exists|i: int|
            0 <= i < candidates_of(cfg.set@).len() && cap_witness(
                graph_of(n, offsets, targets, weights),
                source as int,
                #[trigger] candidate_delta(weights@, cfg.set@, i),
                bucket_cap(n),
            ),
        status == STATUS_OK ==> {
            &&& graph_of(n, offsets, targets, weights).is_solution(source as int, final(out_dist)@)
            &&& graph_of(n, offsets, targets, weights).pred_tight(
                source as int,
                final(out_dist)@,
                final(out_pred)@,
            )
            &&& final(info).settled == count_lt(final(out_dist)@, INF)
            &&& final(info).settled <= 1 + final(info).relaxations
            &&& reach_ok(final(out_dist)@, *final(used_delta), bucket_cap(n))
            &&& exists|run: DeltaRun|
                {
                    &&& #[trigger] run_ok(graph_of(n, offsets, targets, weights), run)
                    &&& ran_through(run, None)
                    &&& final(info).relaxations == run.relaxations
                    &&& final(info).light_relaxations == run.light
                    &&& final(info).heavy_relaxations == run.heavy
                    &&& final(info).settled == run.settled
                }
            &&& final(info).error_code == 0
            &&& exists|i: int|
                0 <= i < candidates_of(cfg.set@).len() && *final(used_delta) == #[trigger] candidate_delta(
                    weights@,
                    cfg.set@,
                    i,
                )
        },
{
    let status = check_entry(n, offsets, targets, weights, source, out_dist.len(), out_pred.len());
    if status != STATUS_OK {
        return status;
    }
    let g = Csr { n, offsets, targets, weights };
    let sample: usize = if weights.len() < MEAN_SAMPLE { weights.len() } else { MEAN_SAMPLE };
    let avg: u64 = derive_avg_weight(sample, weights);
    let candidates = parse_autotune_set(&cfg.set);
    let limit: u32 = if cfg.limit < n { cfg.limit } else { n };
    let times = probe(&g, source, avg, &candidates, limit);
    let best: usize = pick_fastest(&times);
    let final_delta: u64 = scale_delta(avg, candidates[best]);
    let mut dist: Vec<u64> = vec![INF; n as usize];
    let mut pred: Vec<i32> = vec![-1i32; n as usize];
    let run = stoc_run_internal(&g, source, final_delta, &mut dist, &mut pred, None, None);
    proof {
        assert(candidates_of(cfg.set@)[best as int] == candidates@[best as int]);
        assert(final_delta == candidate_delta(weights@, cfg.set@, best as int));
    }
    if run.status != STATUS_OK {
        return run.status;
    }
    *info = SsspResultInfo {
        relaxations: run.relaxations,
        light_relaxations: run.light,
        heavy_relaxations: run.heavy,
        settled: run.settled,
        error_code: 0,
    };
    *used_delta = final_delta;
    *out_dist = dist;
    *out_pred = pred;
    proof {
        assert(run_ok(g@, run));
    }
    STATUS_OK
}

/// The options with which the adaptive run starts after tuning: those of
/// `cfg`, with the multiplier `best` where `cfg` has none.
pub open spec fn seeded(cfg: DeltaConfig, best: u64) -> DeltaConfig {
    DeltaConfig {
        mult_x1000: match cfg.mult_x1000 {
            Some(m) => Some(m),
            None => Some(best),
        },
        ..cfg
    }
}

/// The autotuned adaptive engine: picks the fastest candidate multiplier
/// by timed truncated runs, then runs the adaptive engine, which starts
/// from that multiplier unless `cfg` names one. What it returns and
/// leaves is what `sssp_run_stoc` does with the seeded options.
pub fn sssp_run_stoc_auto_adapt(
    n: u32,
    offsets: &[u32],
    targets: &[u32],
    weights: &[u64],
    source: u32,
    out_dist: &mut Vec<u64>,
    out_pred: &mut Vec<i32>,
    info: &mut SsspResultInfo,
    cfg: &DeltaConfig,
    tune: &AutotuneConfig,
    stats: &mut SsspBucketStats,
    last_delta: &mut u64,
    trace: &mut Vec<RestartEvent>,
) -> (status: i32)
    ensures
        entry_status(n, offsets, targets, weights, source, old(out_dist)@.len(), old(out_pred)@.len())
            != STATUS_OK ==> status == entry_status(
            n,
            offsets,
            targets,
            weights,
            source,
            old(out_dist)@.len(),
            old(out_pred)@.len(),
        ),
        entry_status(n, offsets, targets, weights, source, old(out_dist)@.len(), old(out_pred)@.len())
            == STATUS_OK ==> status == STATUS_OK || status == STATUS_CAP_EXCEEDED,
        status != STATUS_OK ==> {
            &&& final(out_dist)@ == old(out_dist)@
            &&& final(out_pred)@ == old(out_pred)@
            &&& final(trace)@ == old(trace)@
            &&& *final(info) == *old(info)
            &&& *final(stats) == *old(stats)
            &&& *final(last_delta) == *old(last_delta)
        },
        status == STATUS_CAP_EXCEEDED ==> exists|i: int|
            0 <= i < candidates_of(tune.set@).len() && cap_met(
                graph_of(n, offsets, targets, weights),
                source as int,
                seeded(*cfg, #[trigger] candidates_of(tune.set@)[i]),
                weights@,
            ),
        status == STATUS_OK ==> {
            &&& graph_of(n, offsets, targets, weights).is_solution(source as int, final(out_dist)@)
            &&& graph_of(n, offsets, targets, weights).pred_tight(
                source as int,
                final(out_dist)@,
                final(out_pred)@,
            )
            &&& final(info).settled == count_lt(final(out_dist)@, INF)
            &&& final(info).settled <= 1 + final(info).relaxations
            &&& reach_ok(final(out_dist)@, *final(last_delta), bucket_cap(n))
            &&& exists|i: int, run: DeltaRun|
                {
                    &&& 0 <= i < candidates_of(tune.set@).len()
                    &&& #[trigger] stoc_done(
                        graph_of(n, offsets, targets, weights),
                        seeded(*cfg, #[trigger] candidates_of(tune.set@)[i]),
                        *final(info),
                        *final(stats),
                        *final(last_delta),
                        run,
                    )
                    &&& final(stats).restarts == 0 ==> chosen_delta(
                        seeded(*cfg, candidates_of(tune.set@)[i]),
                        weights@,
                        *final(last_delta),
                    )
                }
        },
{
    let status = check_entry(n, offsets, targets, weights, source, out_dist.len(), out_pred.len());
    if status != STATUS_OK {
        return status;
    }
    let g = Csr { n, offsets, targets, weights };
    let candidates = parse_autotune_set(&tune.set);
    let limit: u32 = if tune.limit < n { tune.limit } else { n };
    let base: u64 = match cfg.mode {
        DeltaMode::Quantile => {
            let (b, Ghost(_sorted)) = quantile_base(weights, cfg.heavy_target_x1000);
            b
        },
        DeltaMode::Average => {
            let sample: usize = if weights.len() < MEAN_SAMPLE { weights.len() } else { MEAN_SAMPLE };
            derive_avg_weight(sample, weights)
        },
    };
    let times = probe(&g, source, base, &candidates, limit);
    let best: usize = pick_fastest(&times);
    let best_mult: u64 = candidates[best];
    let seeded_cfg = DeltaConfig {
        mode: cfg.mode,
        mult_x1000: match cfg.mult_x1000 {
            Some(m) => Some(m),
            None => Some(best_mult),
        },
        heavy_target_x1000: cfg.heavy_target_x1000,
        adapt_max_restarts: cfg.adapt_max_restarts,
        adapt_trigger: cfg.adapt_trigger,
        heavy_min_x1000: cfg.heavy_min_x1000,
        heavy_max_x1000: cfg.heavy_max_x1000,
        trace: cfg.trace,
    };
    let status = sssp_run_stoc(
        n,
        offsets,
        targets,
        weights,
        source,
        out_dist,
        out_pred,
        info,
        &seeded_cfg,
        stats,
        last_delta,
        trace,
    );
    proof {
        assert(seeded_cfg == seeded(*cfg, candidates_of(tune.set@)[best as int]));
        if status == STATUS_OK {
            let run = choose|run: DeltaRun|
                #[trigger] stoc_done(
                    graph_of(n, offsets, targets, weights),
                    seeded_cfg,
                    *info,
                    *stats,
                    *last_delta,
                    run,
                );
            assert(stoc_done(
                graph_of(n, offsets, targets, weights),
                seeded(*cfg, candidates_of(tune.set@)[best as int]),
                *info,
                *stats,
                *last_delta,
                run,
            ));
        }
    }
    status
}

} // verus!

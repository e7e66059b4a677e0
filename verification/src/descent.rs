//! The segment-descent driver: runs a chain with growing budget on arrays
//! of its own, records one frame per segment, and then lets the reference
//! engine fill the output. The multi-level variant adds one refined frame
//! below every frame that closed at a finite bound.

use vstd::prelude::*;
use crate::graph::{
    Csr,
    Graph,
    INF,
    STATUS_OK,
    graph_of,
    entry_status,
    check_entry,
    dist_add,
    sat_add,
};
use crate::basecase::{at_least_one, clamp_k};
use crate::chain::{
    ChainRun, ChainSegment, run_chain, segments_ok, total_size, total_relax, chain_post,
};
use crate::reference::{dijkstra};
use crate::search::{fill_dist, fill_pred};
use crate::stats::{SsspResultInfo, SpecRecursionStats, SpecRecursionFrameDetail};

verus! {

/// Options of the segment-descent driver.
#[derive(Clone, Copy, Debug, PartialEq, Eq, Structural)]
pub struct RecursionConfig {
    /// Seed budget, recorded with the run; 0 counts as 1.
    pub seed_k: u32,
    /// Most frames recorded; 0 counts as 1.
    pub max_frames: u32,
    /// Leave the output unsolved: distances at `INF` but for the source, no predecessors.
    pub skip_baseline: bool,
    /// Make no segments at all.
    pub no_chain: bool,
    /// Levels of the multi-level variant; 0 counts as 1.
    pub ml_depth_max: u32,
    /// Budget of the first segment; 0 counts as 1.
    pub chain_k: u32,
    /// Most segments; 0 counts as 1.
    pub chain_max_segments: u32,
    /// Stop once this many vertices are collected; 0 for no target.
    pub chain_target_total: u32,
}

impl RecursionConfig {
    /// The options used where none are given.
    pub fn new() -> (c: Self)
        ensures
            c.seed_k == 1024,
            c.max_frames == 256,
            !c.skip_baseline,
            !c.no_chain,
            c.ml_depth_max == 2,
            c.chain_k == 1024,
            c.chain_max_segments == 32,
            c.chain_target_total == 0,
    {
        Self {
            seed_k: 1024,
            max_frames: 256,
            skip_baseline: false,
            no_chain: false,
            ml_depth_max: 2,
            chain_k: 1024,
            chain_max_segments: 32,
            chain_target_total: 0,
        }
    }
}

/// The frame of segment `i`, counted from 0, after the segment that closed at `prev`.
pub open spec fn frame_of(seg: ChainSegment, i: int, prev: u64, with_gain: bool) -> SpecRecursionFrameDetail {
    SpecRecursionFrameDetail {
        id: (i + 1) as u32,
        bound: seg.bound,
        k_used: seg.k_used,
        segment_size: seg.size,
        truncated: if seg.truncated { 1 } else { 0 },
        relaxations: seg.relaxations,
        pivots_examined: 0,
        max_subtree: 0,
        depth: 0,
        parent_id: 0,
        pruning_ratio_x1000: 0,
        bound_improvement: if with_gain && i > 0 && seg.bound < INF {
            (seg.bound - prev) as u64
        } else {
            0
        },
        pivot_success_rate_x1000: 0,
    }
}

/// The frames of the segments, in order. With `with_gain`, every frame
/// after the first that closed at a finite bound tells how far that bound
/// lies above the one before.
pub open spec fn frames_of(segs: Seq<ChainSegment>, with_gain: bool) -> Seq<SpecRecursionFrameDetail> {
    Seq::new(
        segs.len(),
        |i: int| frame_of(segs[i], i, if i > 0 { segs[i - 1].bound } else { 0 }, with_gain),
    )
}

/// Computes `frames_of`.
pub fn frames_from(run: &ChainRun, with_gain: bool) -> (frames: Vec<SpecRecursionFrameDetail>)
    requires
        run.segments@.len() <= u32::MAX,
        forall|i: int, j: int|
            0 <= i < j < run.segments@.len() ==> (#[trigger] run.segments@[i]).bound < (
            #[trigger] run.segments@[j]).bound,
    ensures
        frames@ == frames_of(run.segments@, with_gain),
{
    let mut frames: Vec<SpecRecursionFrameDetail> = Vec::new();
    let mut prev: u64 = 0;
    let mut i: usize = 0;
    let len: usize = run.segments.len();
    while i < len
        invariant
            i <= len,
            len == run.segments@.len(),
            len <= u32::MAX,
            forall|a: int, b: int|
                0 <= a < b < run.segments@.len() ==> (#[trigger] run.segments@[a]).bound < (
                #[trigger] run.segments@[b]).bound,
            prev == if i > 0 { run.segments@[i - 1].bound } else { 0 },
            frames@.len() == i,
            forall|t: int|
                0 <= t < i ==> (#[trigger] frames@[t]) == frame_of(
                    run.segments@[t],
                    t,
                    if t > 0 { run.segments@[t - 1].bound } else { 0 },
                    with_gain,
                ),
        decreases len - i,
    {
        let seg = run.segments[i];
        proof {
            if i > 0 {
                assert(run.segments@[i - 1].bound < run.segments@[i as int].bound);
            }
        }
        let gain: u64 = if with_gain && i > 0 && seg.bound < INF { seg.bound - prev } else { 0 };
        let f = SpecRecursionFrameDetail {
            id: (i + 1) as u32,
            bound: seg.bound,
            k_used: seg.k_used,
            segment_size: seg.size,
            truncated: if seg.truncated { 1 } else { 0 },
            relaxations: seg.relaxations,
            pivots_examined: 0,
            max_subtree: 0,
            depth: 0,
            parent_id: 0,
            pruning_ratio_x1000: 0,
            bound_improvement: gain,
            pivot_success_rate_x1000: 0,
        };
        let ghost f0 = frames@;
        frames.push(f);
        proof {
            assert forall|t: int| 0 <= t < i + 1 implies (#[trigger] frames@[t]) == frame_of(
                run.segments@[t],
                t,
                if t > 0 { run.segments@[t - 1].bound } else { 0 },
                with_gain,
            ) by {
                if t < i {
                    assert(frames@[t] == f0[t]);
                }
            }
        }
        prev = seg.bound;
        i += 1;
    }
    proof {
        assert(frames@ =~= frames_of(run.segments@, with_gain));
    }
    frames
}

/// The bound of a refined frame: one hundredth above its parent's, and one tick.
pub open spec fn child_bound(bound: u64) -> u64 {
    sat_add(sat_add(bound, bound / 100), 1)
}

/// The frame that refines `f`, with the given id.
pub open spec fn child_of(f: SpecRecursionFrameDetail, id: u32) -> SpecRecursionFrameDetail {
    SpecRecursionFrameDetail {
        id,
        bound: child_bound(f.bound),
        k_used: f.k_used,
        segment_size: f.segment_size / 2,
        truncated: f.truncated,
        relaxations: 0,
        pivots_examined: 0,
        max_subtree: 0,
        depth: (f.depth + 1) as u32,
        parent_id: f.id,
        pruning_ratio_x1000: if f.segment_size > 0 {
            (1000 - (f.segment_size / 2) as int * 1000 / (f.segment_size as int)) as u32
        } else {
            0
        },
        bound_improvement: (child_bound(f.bound) - f.bound) as u64,
        pivot_success_rate_x1000: 0,
    }
}

/// The frames `base` followed by a refined frame for each of the first
/// `upto` of them that closed at a finite bound, ids counting on.
pub open spec fn refined(base: Seq<SpecRecursionFrameDetail>, upto: int) -> Seq<SpecRecursionFrameDetail>
    decreases upto,
{
    if upto <= 0 {
        base
    } else {
        let before = refined(base, upto - 1);
        let f = base[upto - 1];
        if f.depth == 0 && f.bound < INF {
            before.push(child_of(f, (before.len() + 1) as u32))
        } else {
            before
        }
    }
}

/// Refined frames are added behind the frames they refine, at most one for each.
proof fn lemma_refined_len(base: Seq<SpecRecursionFrameDetail>, upto: int)
    requires
        0 <= upto <= base.len(),
    ensures
        base.len() <= refined(base, upto).len() <= base.len() + upto,
        forall|i: int| 0 <= i < base.len() ==> refined(base, upto)[i] == base[i],
    decreases upto,
{
    if upto > 0 {
        lemma_refined_len(base, upto - 1);
    }
}

/// Appends the refined frames. Returns how many were made.
pub fn refine_frames(frames: &mut Vec<SpecRecursionFrameDetail>) -> (made: u32)
    requires
        old(frames)@.len() <= 0x7fff_ffff,
    ensures
        final(frames)@ == refined(old(frames)@, old(frames)@.len() as int),
        final(frames)@.len() == old(frames)@.len() + made,
{
    let base_len: usize = frames.len();
    let ghost base = frames@;
    let mut made: u32 = 0;
    let mut i: usize = 0;
    while i < base_len
        invariant
            i <= base_len,
            base_len == base.len(),
            base_len <= 0x7fff_ffff,
            base == old(frames)@,
            frames@ == refined(base, i as int),
            frames@.len() == base_len + made,
            made <= i,
        decreases base_len - i,
    {
        proof {
            lemma_refined_len(base, i as int);
        }
        let f = frames[i];
        if f.depth == 0 && f.bound < INF {
            let id: u32 = (frames.len() + 1) as u32;
            let cb: u64 = dist_add(dist_add(f.bound, f.bound / 100), 1);
            let child_seg: u32 = f.segment_size / 2;
            let ratio: u32 = if f.segment_size > 0 {
                proof {
                    assert((f.segment_size / 2) as int * 1000 / (f.segment_size as int) <= 1000)
                        by (nonlinear_arith)
                        requires
                            f.segment_size > 0,
                    ;
                    assert((f.segment_size / 2) as int * 1000 / (f.segment_size as int) >= 0)
                        by (nonlinear_arith)
                        requires
                            f.segment_size > 0,
                    ;
                }
                (1000 - (child_seg as u64 * 1000) / (f.segment_size as u64)) as u32
            } else {
                0
            };
            let child = SpecRecursionFrameDetail {
                id,
                bound: cb,
                k_used: f.k_used,
                segment_size: child_seg,
                truncated: f.truncated,
                relaxations: 0,
                pivots_examined: 0,
                max_subtree: 0,
                depth: f.depth + 1,
                parent_id: f.id,
                pruning_ratio_x1000: ratio,
                bound_improvement: cb - f.bound,
                pivot_success_rate_x1000: 0,
            };
            frames.push(child);
            made = made + 1;
        }
        i += 1;
    }
    made
}

/// What the output holds after the driver: the solution of the reference
/// engine, or, where that is skipped, only the source reached.
pub open spec fn output_ok(
    g: Graph,
    s: int,
    skip: bool,
    dist: Seq<u64>,
    pred: Seq<i32>,
    baseline_relaxations: u64,
) -> bool {
    if skip {
        &&& dist.len() == g.n
        &&& pred.len() == g.n
        &&& forall|v: int| 0 <= v < g.n ==> dist[v] == if v == s { 0u64 } else { INF }
        &&& forall|v: int| 0 <= v < g.n ==> pred[v] == -1
        &&& baseline_relaxations == 0
    } else {
        &&& g.is_solution(s, dist)
        &&& g.pred_tight(s, dist, pred)
        &&& baseline_relaxations <= g.m()
    }
}

/// Fills the output: by the reference engine, or as unsolved where `skip` is set.
fn fill_output(
    g: &Csr,
    source: u32,
    skip: bool,
    out_dist: &mut Vec<u64>,
    out_pred: &mut Vec<i32>,
    info: &mut SsspResultInfo,
) -> (baseline: u64)
    requires
        g@.wf(),
        source < g.n,
        old(out_dist)@.len() == g@.n,
        old(out_pred)@.len() == g@.n,
    ensures
        output_ok(g@, source as int, skip, final(out_dist)@, final(out_pred)@, baseline),
        final(info).relaxations == baseline,
        skip ==> {
            &&& final(info).light_relaxations == old(info).light_relaxations
            &&& final(info).heavy_relaxations == old(info).heavy_relaxations
            &&& final(info).settled == old(info).settled
            &&& final(info).error_code == old(info).error_code
        },
        !skip ==> {
            &&& final(info).light_relaxations == 0
            &&& final(info).heavy_relaxations == 0
            &&& final(info).settled == g.n
            &&& final(info).error_code == 0
        },
{
    if skip {
        fill_dist(out_dist, INF);
        fill_pred(out_pred);
        out_dist[source as usize] = 0;
        info.relaxations = 0;
        0
    } else {
        let mut relax: u64 = 0;
        let _heap = dijkstra(g, out_dist, out_pred, source, &mut relax);
        *info = SsspResultInfo {
            relaxations: relax,
            light_relaxations: 0,
            heavy_relaxations: 0,
            settled: g.n,
            error_code: 0,
        };
        relax
    }
}

/// The smaller of the two.
pub fn min_u32(a: u32, b: u32) -> (r: u32)
    ensures
        r == if a < b { a } else { b },
{
    if a < b {
        a
    } else {
        b
    }
}

/// The segments of a descent: those of a chain from `s` whose budget
/// starts at `k0` and grows, of at most `cap` segments, that stops at
/// `target` collected vertices where that is not 0; `stats` counts them.
pub open spec fn descent_segments(
    g: Graph,
    s: int,
    segs: Seq<ChainSegment>,
    k0: u32,
    cap: u32,
    target: u32,
    stats: SpecRecursionStats,
) -> bool {
    &&& exists|dist: Seq<u64>, pred: Seq<i32>, run: ChainRun|
        #[trigger] chain_post(g, s, k0, cap, target, true, dist, pred, run) && run.segments@ == segs
    &&& segments_ok(segs, g.n as u32, g.m(), k0, true)
    &&& segs.len() <= cap
    &&& stats.chain_segments == segs.len()
    &&& stats.chain_total_collected == total_size(segs)
    &&& stats.total_relaxations == total_relax(segs)
}

/// Most segments of a descent: the configured number, and no more than
/// frames may be recorded.
pub open spec fn descent_cap(cfg: RecursionConfig) -> u32 {
    if at_least_one(cfg.chain_max_segments) < at_least_one(cfg.max_frames) {
        at_least_one(cfg.chain_max_segments)
    } else {
        at_least_one(cfg.max_frames)
    }
}

/// Invariant checks of a single-level descent: one per segment after the
/// first, for its bound, and one per collected vertex but the source, for
/// its predecessor.
pub open spec fn descent_checks(segments: int, collected: int) -> int {
    if segments == 0 {
        0
    } else {
        (segments - 1) + (collected - 1)
    }
}

/// The segment-descent driver. Records in `frames` one frame per segment
/// of a chain run on arrays of its own, unless `cfg.no_chain` is set, then
/// fills the output by the reference engine, unless `cfg.skip_baseline` is
/// set. Returns `entry_status` of the inputs and writes nothing where that is not 0.
pub fn sssp_run_spec_recursive(
    n: u32,
    offsets: &[u32],
    targets: &[u32],
    weights: &[u64],
    source: u32,
    out_dist: &mut Vec<u64>,
    out_pred: &mut Vec<i32>,
    info: &mut SsspResultInfo,
    cfg: &RecursionConfig,
    stats: &mut SpecRecursionStats,
    frames: &mut Vec<SpecRecursionFrameDetail>,
) -> (status: i32)
    ensures
        status == entry_status(
            n,
            offsets,
            targets,
            weights,
            source,
            old(out_dist)@.len(),
            old(out_pred)@.len(),
        ),
        status != STATUS_OK ==> {
            &&& final(out_dist)@ == old(out_dist)@
            &&& final(out_pred)@ == old(out_pred)@
            &&& *final(info) == *old(info)
            &&& *final(stats) == *old(stats)
            &&& final(frames)@ == old(frames)@
        },
        status == STATUS_OK ==> {
            &&& output_ok(
                graph_of(n, offsets, targets, weights),
                source as int,
                cfg.skip_baseline,
                final(out_dist)@,
                final(out_pred)@,
                final(stats).baseline_relaxations,
            )
            &&& final(info).relaxations == final(stats).baseline_relaxations
            &&& final(stats).seed_k == at_least_one(cfg.seed_k)
            &&& final(stats).inv_failures == 0
            &&& cfg.no_chain ==> {
                &&& final(frames)@.len() == 0
                &&& final(stats).frames == 1
                &&& final(stats).chain_segments == 0
                &&& final(stats).chain_total_collected == 0
                &&& final(stats).total_relaxations == 0
                &&& final(stats).inv_checks == 0
            }
            &&& !cfg.no_chain ==> exists|segs: Seq<ChainSegment>|
                {
                    &&& #[trigger] descent_segments(
                        graph_of(n, offsets, targets, weights),
                        source as int,
                        segs,
                        at_least_one(cfg.chain_k),
                        descent_cap(*cfg),
                        cfg.chain_target_total,
                        *final(stats),
                    )
                    &&& final(frames)@ == frames_of(segs, false)
                    &&& final(stats).frames == if segs.len() == 0 { 1 } else { segs.len() as u32 }
                    &&& final(stats).inv_checks == descent_checks(
                        segs.len() as int,
                        total_size(segs) as int,
                    )
                }
        },
{
    let status = check_entry(n, offsets, targets, weights, source, out_dist.len(), out_pred.len());
    if status != STATUS_OK {
        return status;
    }
    let g = Csr { n, offsets, targets, weights };
    let seed_k: u32 = clamp_k(cfg.seed_k);
    let mut chain_segments: u32 = 0;
    let mut chain_total: u32 = 0;
    let mut seg_relax: u64 = 0;
    let mut checks: u64 = 0;
    let mut frame_count: u32 = 1;
    frames.clear();
    let ghost mut segs: Seq<ChainSegment> = Seq::empty();
    if !cfg.no_chain {
        let k0: u32 = clamp_k(cfg.chain_k);
        let cap: u32 = min_u32(clamp_k(cfg.chain_max_segments), clamp_k(cfg.max_frames));
        let mut dist: Vec<u64> = vec![INF; n as usize];
        let mut pred: Vec<i32> = vec![-1i32; n as usize];
        let run = run_chain(&g, source, &mut dist, &mut pred, k0, cap, cfg.chain_target_total, true);
        proof {
            segs = run.segments@;
            assert(g@.off[g@.n as int] == g@.m());
            assert(chain_post(
                g@,
                source as int,
                at_least_one(cfg.chain_k),
                descent_cap(*cfg),
                cfg.chain_target_total,
                true,
                dist@,
                pred@,
                run,
            ) && run.segments@ == segs);
        }
        let (relax, made) = sum_segments(&run, Ghost(g@.m()));
        *frames = frames_from(&run, false);
        chain_segments = run.segments.len() as u32;
        chain_total = run.total_collected;
        seg_relax = relax;
        if chain_segments > 0 {
            frame_count = chain_segments;
            checks = (chain_segments - 1) as u64 + (chain_total - 1) as u64;
        }
    }
    let baseline: u64 = fill_output(&g, source, cfg.skip_baseline, out_dist, out_pred, info);
    *stats = SpecRecursionStats {
        frames: frame_count,
        total_relaxations: seg_relax,
        baseline_relaxations: baseline,
        seed_k,
        chain_segments,
        chain_total_collected: chain_total,
        inv_checks: checks,
        inv_failures: 0,
    };
    proof {
        if !cfg.no_chain {
            assert(descent_segments(
                g@,
                source as int,
                segs,
                at_least_one(cfg.chain_k),
                descent_cap(*cfg),
                cfg.chain_target_total,
                *stats,
            ));
        }
    }
    STATUS_OK
}

/// Sums the relaxations of the segments of a run; also counts the segments.
fn sum_segments(run: &ChainRun, m: Ghost<nat>) -> (r: (u64, u32))
    requires
        run.segments@.len() <= u32::MAX,
        m@ <= 0xffff_ffff,
        forall|i: int| 0 <= i < run.segments@.len() ==> (#[trigger] run.segments@[i]).relaxations <= m@,
        forall|i: int| 0 <= i < run.segments@.len() ==> (#[trigger] run.segments@[i]).size >= 1,
        run.total_collected == total_size(run.segments@),
    ensures
        r.0 == total_relax(run.segments@),
        r.1 == run.segments@.len(),
        run.segments@.len() > 0 ==> run.total_collected >= 1,
{
    let mut relax: u64 = 0;
    let mut i: usize = 0;
    let len: usize = run.segments.len();
    proof {
        assert(run.segments@.take(0) =~= Seq::<ChainSegment>::empty());
        if len > 0 {
            assert(run.segments@.last().size >= 1);
        }
    }
    while i < len
        invariant
            i <= len,
            len == run.segments@.len(),
            len <= u32::MAX,
            m@ <= 0xffff_ffff,
            forall|t: int| 0 <= t < len ==> (#[trigger] run.segments@[t]).relaxations <= m@,
            relax == total_relax(run.segments@.take(i as int)),
            relax <= i * m@,
        decreases len - i,
    {
        let seg = run.segments[i];
        proof {
            let ta = run.segments@.take(i as int);
            let tb = run.segments@.take(i + 1);
            assert(tb.drop_last() =~= ta);
            assert(tb.last() == seg);
            assert((i + 1) * m@ == i * m@ + m@) by (nonlinear_arith);
            assert(i * m@ <= 0xffff_ffff * 0xffff_ffff) by (nonlinear_arith)
                requires
                    0 <= i <= 0xffff_ffff,
                    0 <= m@ <= 0xffff_ffff,
            ;
        }
        relax = relax + seg.relaxations;
        i += 1;
    }
    proof {
        assert(run.segments@.take(len as int) =~= run.segments@);
    }
    (relax, len as u32)
}

/// Invariant checks of a multi-level descent: those of the single level,
/// and two per refined frame.
pub open spec fn descent_checks_ml(segments: int, collected: int, made: int) -> int {
    descent_checks(segments, collected) + 2 * made
}

/// The multi-level segment-descent driver. As the single-level one, with
/// at most 32 segments and no target, frames that tell how far each bound
/// lies above the one before, and, where `cfg.ml_depth_max` is above 1, a
/// refined frame appended for each frame that closed at a finite bound.
/// The reference engine always fills the output.
pub fn sssp_run_spec_recursive_ml(
    n: u32,
    offsets: &[u32],
    targets: &[u32],
    weights: &[u64],
    source: u32,
    out_dist: &mut Vec<u64>,
    out_pred: &mut Vec<i32>,
    info: &mut SsspResultInfo,
    cfg: &RecursionConfig,
    stats: &mut SpecRecursionStats,
    frames: &mut Vec<SpecRecursionFrameDetail>,
) -> (status: i32)
    ensures
        status == entry_status(
            n,
            offsets,
            targets,
            weights,
            source,
            old(out_dist)@.len(),
            old(out_pred)@.len(),
        ),
        status != STATUS_OK ==> {
            &&& final(out_dist)@ == old(out_dist)@
            &&& final(out_pred)@ == old(out_pred)@
            &&& *final(info) == *old(info)
            &&& *final(stats) == *old(stats)
            &&& final(frames)@ == old(frames)@
        },
        status == STATUS_OK ==> {
            &&& output_ok(
                graph_of(n, offsets, targets, weights),
                source as int,
                false,
                final(out_dist)@,
                final(out_pred)@,
                final(stats).baseline_relaxations,
            )
            &&& final(info).relaxations == final(stats).baseline_relaxations
            &&& final(stats).seed_k == at_least_one(cfg.seed_k)
            &&& final(stats).inv_failures == 0
            &&& final(stats).frames == final(frames)@.len()
            &&& exists|segs: Seq<ChainSegment>|
                {
                    &&& #[trigger] descent_segments(
                        graph_of(n, offsets, targets, weights),
                        source as int,
                        segs,
                        at_least_one(cfg.chain_k),
                        ml_cap(*cfg),
                        0,
                        *final(stats),
                    )
                    &&& final(frames)@ == if cfg.ml_depth_max > 1 {
                        refined(frames_of(segs, true), segs.len() as int)
                    } else {
                        frames_of(segs, true)
                    }
                    &&& final(stats).inv_checks == descent_checks_ml(
                        segs.len() as int,
                        total_size(segs) as int,
                        final(frames)@.len() - segs.len(),
                    )
                }
        },
{
    let status = check_entry(n, offsets, targets, weights, source, out_dist.len(), out_pred.len());
    if status != STATUS_OK {
        return status;
    }
    let g = Csr { n, offsets, targets, weights };
    let seed_k: u32 = clamp_k(cfg.seed_k);
    let k0: u32 = clamp_k(cfg.chain_k);
    let cap: u32 = min_u32(min_u32(clamp_k(cfg.chain_max_segments), 32), clamp_k(cfg.max_frames));
    let mut dist: Vec<u64> = vec![INF; n as usize];
    let mut pred: Vec<i32> = vec![-1i32; n as usize];
    let run = run_chain(&g, source, &mut dist, &mut pred, k0, cap, 0, true);
    proof {
        assert(g@.off[g@.n as int] == g@.m());
    }
    let (seg_relax, chain_segments) = sum_segments(&run, Ghost(g@.m()));
    *frames = frames_from(&run, true);
    let chain_total: u32 = run.total_collected;
    let mut checks: u64 = 0;
    if chain_segments > 0 {
        checks = (chain_segments - 1) as u64 + (chain_total - 1) as u64;
    }
    let mut made: u32 = 0;
    proof {
        assert(frames@.len() == run.segments@.len());
        assert(frames@.len() <= 32);
    }
    let ghost base = frames@;
    if cfg.ml_depth_max > 1 {
        made = refine_frames(frames);
        checks = checks + 2 * (made as u64);
    }
    proof {
        assert(frames@.len() == base.len() + made);
        assert(made <= 32) by {
            if cfg.ml_depth_max > 1 {
                lemma_refined_len(base, base.len() as int);
            }
        }
    }
    let frames_total: u32 = frames.len() as u32;
    let baseline: u64 = fill_output(&g, source, false, out_dist, out_pred, info);
    *stats = SpecRecursionStats {
        frames: frames_total,
        total_relaxations: seg_relax,
        baseline_relaxations: baseline,
        seed_k,
        chain_segments,
        chain_total_collected: chain_total,
        inv_checks: checks,
        inv_failures: 0,
    };
    proof {
        assert(chain_post(g@, source as int, at_least_one(cfg.chain_k), ml_cap(*cfg), 0, true, dist@, pred@, run));
        assert(descent_segments(
            g@,
            source as int,
            run.segments@,
            at_least_one(cfg.chain_k),
            ml_cap(*cfg),
            0,
            *stats,
        ));
    }
    STATUS_OK
}

/// Most segments of a multi-level descent: the configured number, at most
/// 32, and no more than frames may be recorded.
pub open spec fn ml_cap(cfg: RecursionConfig) -> u32 {
    let a = if at_least_one(cfg.chain_max_segments) < 32 {
        at_least_one(cfg.chain_max_segments)
    } else {
        32
    };
    if a < at_least_one(cfg.max_frames) {
        a
    } else {
        at_least_one(cfg.max_frames)
    }
}

} // verus!

//! When no bucket of a delta-stepping run can lie beyond the cap: a walk
//! that passes no vertex twice is no longer than the edges it can have,
//! and restarts at most halve the delta.

use vstd::prelude::*;
use vstd::arithmetic::div_mod::{lemma_div_is_ordered, lemma_div_is_ordered_by_denominator};
use crate::graph::{Graph, INF};
use crate::paths::lemma_simple_bound;
use crate::delta::{
    AdaptAction, DeltaConfig, RestartEvent, adapted_delta, beyond_cap, bucket_cap, cap_met, cap_witness,
    chosen_delta, restarts_chain,
};

verus! {

/// `d` halved `k` times.
pub open spec fn halved(d: u64, k: nat) -> u64
    decreases k,
{
    if k == 0 {
        d
    } else {
        halved(d, (k - 1) as nat) / 2
    }
}

/// Halving more often gives no more.
pub proof fn lemma_halved_more(d: u64, k: nat, more: nat)
    requires
        k <= more,
    ensures
        halved(d, more) <= halved(d, k),
    decreases more,
{
    if k < more {
        lemma_halved_more(d, k, (more - 1) as nat);
    }
}

/// A longer walk over a smaller delta lies no nearer.
pub proof fn lemma_beyond_more(nd: u64, far: u64, delta: u64, small: u64, cap: u64)
    requires
        nd <= far,
        1 <= small <= delta,
        beyond_cap(nd, delta, cap),
    ensures
        beyond_cap(far, small, cap),
{
    lemma_div_is_ordered(nd as int, far as int, delta as int);
    lemma_div_is_ordered_by_denominator(far as int, small as int, delta as int);
}

/// Where the most edges that a walk without a repeated vertex can have,
/// each at the largest weight, stay within the cap, no walk is a witness.
pub proof fn lemma_no_witness(g: Graph, s: int, delta: u64, cap: u64, heaviest: u64)
    requires
        g.wf(),
        delta >= 1,
        forall|e: int| 0 <= e < g.wts.len() ==> (#[trigger] g.wts[e]) <= heaviest,
        (g.n - 1) * heaviest < INF,
        !beyond_cap(((g.n - 1) * heaviest) as u64, delta, cap),
    ensures
        !cap_witness(g, s, delta, cap),
{
    if cap_witness(g, s, delta, cap) {
        let (v, p) = choose|v: int, p: Seq<int>|
            #[trigger] g.walk_to(s, v, p) && crate::paths::simple(g, s, p) && g.walk_len(p) < INF
                && beyond_cap(g.walk_len(p) as u64, delta, cap);
        lemma_simple_bound(g, s, p, heaviest);
        crate::graph::lemma_walk_len_nonneg(g, p);
        lemma_beyond_more(g.walk_len(p) as u64, ((g.n - 1) * heaviest) as u64, delta, delta, cap);
    }
}

/// No change halves a delta more than once.
pub proof fn lemma_adapted_floor(d: u64, a: AdaptAction)
    ensures
        adapted_delta(d, a) >= d / 2,
        adapted_delta(d, a) >= 1,
{
}

/// The restarts before the last lead to the delta that the last one found.
pub proof fn lemma_chain_front(events: Seq<RestartEvent>, first: u64, last: u64)
    requires
        restarts_chain(events, first, last),
        events.len() > 0,
    ensures
        restarts_chain(events.drop_last(), first, events.last().old_delta),
{
    let front = events.drop_last();
    assert forall|i: int| 0 <= i < front.len() implies {
        let e = #[trigger] front[i];
        &&& e.restart == i + 1
        &&& e.action != AdaptAction::Keep
        &&& e.new_delta == adapted_delta(e.old_delta, e.action)
    } by {
        assert(front[i] == events[i]);
    }
    assert forall|i: int, j: int| 0 <= i && j == i + 1 && j < front.len() implies (
    #[trigger] front[j]).old_delta == (#[trigger] front[i]).new_delta by {
        assert(front[i] == events[i]);
        assert(front[j] == events[j]);
    }
    if front.len() > 0 {
        assert(front[0] == events[0]);
        let k = front.len() - 1;
        assert(front[k] == events[k]);
        assert(events[k + 1] == events.last());
        assert(events[k + 1].old_delta == events[k].new_delta);
    }
}

/// Restarts lead to a delta no smaller than the first halved once for each.
pub proof fn lemma_chain_floor(events: Seq<RestartEvent>, first: u64, last: u64)
    requires
        restarts_chain(events, first, last),
    ensures
        last >= halved(first, events.len()),
        first >= 1 ==> last >= 1,
    decreases events.len(),
{
    if events.len() > 0 {
        let e = events.last();
        lemma_chain_front(events, first, last);
        lemma_chain_floor(events.drop_last(), first, e.old_delta);
        assert(events[events.len() - 1] == e);
        lemma_adapted_floor(e.old_delta, e.action);
        lemma_div_is_ordered(halved(first, (events.len() - 1) as nat) as int, e.old_delta as int, 2);
    }
}

/// Where, for any delta that the options select, halved once for every
/// restart allowed, the longest walk without a repeated vertex stays
/// within the cap, the adaptive engine meets no cap.
pub proof fn lemma_no_cap(g: Graph, s: int, cfg: DeltaConfig, wts: Seq<u64>, heaviest: u64)
    requires
        g.wf(),
        forall|e: int| 0 <= e < g.wts.len() ==> (#[trigger] g.wts[e]) <= heaviest,
        (g.n - 1) * heaviest < INF,
        forall|first: u64| #[trigger]
            chosen_delta(cfg, wts, first) ==> halved(first, cfg.adapt_max_restarts as nat) >= 1
                && !beyond_cap(
                ((g.n - 1) * heaviest) as u64,
                halved(first, cfg.adapt_max_restarts as nat),
                bucket_cap(g.n as u32),
            ),
    ensures
        !cap_met(g, s, cfg, wts),
{
    if cap_met(g, s, cfg, wts) {
        let (events, first, delta) = choose|events: Seq<RestartEvent>, first: u64, delta: u64|
            chosen_delta(cfg, wts, first) && #[trigger] restarts_chain(events, first, delta)
                && events.len() <= cfg.adapt_max_restarts && crate::delta::decided(
                events,
                crate::delta::adapt_params_of(cfg, g.n as u32),
            ) && cap_witness(g, s, delta, bucket_cap(g.n as u32));
        let low = halved(first, cfg.adapt_max_restarts as nat);
        lemma_chain_floor(events, first, delta);
        lemma_halved_more(first, events.len(), cfg.adapt_max_restarts as nat);
        let far = ((g.n - 1) * heaviest) as u64;
        if beyond_cap(far, delta, bucket_cap(g.n as u32)) {
            lemma_beyond_more(far, far, delta, low, bucket_cap(g.n as u32));
        }
        lemma_no_witness(g, s, delta, bucket_cap(g.n as u32), heaviest);
    }
}

} // verus!

//! How the delta-stepping engine picks its delta: from the mean or from a
//! quantile of a sample of the weights, times a multiplier, within limits.

use vstd::prelude::*;
use vstd::multiset::Multiset;
use crate::graph::{UNIT};
use crate::heap::{HeapItem, MinHeap};

verus! {

/// Smallest delta that a selection returns: 0.0001.
pub const DELTA_MIN: u64 = 100;

/// Largest delta that a selection returns: 1,000,000.0.
pub const DELTA_MAX: u64 = 1_000_000_000_000;

/// Weights sampled for the mean.
pub const MEAN_SAMPLE: usize = 1000;

/// Weights sampled for the quantile.
pub const QUANTILE_SAMPLE: usize = 5000;

/// How delta is selected.
#[derive(Clone, Copy, Debug, PartialEq, Eq, Structural)]
pub enum DeltaMode {
    /// Mean of the first weights.
    Average,
    /// A quantile of the first weights.
    Quantile,
}

/// Sum of the first `k` weights.
pub open spec fn prefix_sum(w: Seq<u64>, k: int) -> int
    decreases k,
{
    if k <= 0 {
        0
    } else {
        prefix_sum(w, k - 1) + w[k - 1]
    }
}

/// A sum of `k` weights is at most `k` times the largest weight there can be.
pub proof fn lemma_prefix_sum_bound(w: Seq<u64>, k: int)
    requires
        0 <= k <= w.len(),
    ensures
        0 <= prefix_sum(w, k) <= k * 0xffff_ffff_ffff_ffff,
    decreases k,
{
    if k > 0 {
        lemma_prefix_sum_bound(w, k - 1);
        assert(k * 0xffff_ffff_ffff_ffff == (k - 1) * 0xffff_ffff_ffff_ffff + 0xffff_ffff_ffff_ffff)
            by (nonlinear_arith);
    }
}

/// The smaller of the two.
pub open spec fn min_of(a: int, b: int) -> int {
    if a < b {
        a
    } else {
        b
    }
}

/// Mean of the first `sample` weights, rounded down; 1.0 where there is no
/// weight to sample or the mean is 0.
pub open spec fn mean_weight(w: Seq<u64>, sample: int) -> u64 {
    if sample <= 0 {
        UNIT
    } else {
        let avg = prefix_sum(w, sample) / sample;
        if avg <= 0 {
            UNIT
        } else {
            avg as u64
        }
    }
}

/// Computes `mean_weight`.
pub fn derive_avg_weight(sample: usize, wts: &[u64]) -> (avg: u64)
    requires
        sample <= wts@.len(),
        sample <= 0xffff_ffff,
    ensures
        avg == mean_weight(wts@, sample as int),
        avg >= 1,
{
    if sample == 0 {
        return UNIT;
    }
    let mut s: u128 = 0;
    let mut i: usize = 0;
    while i < sample
        invariant
            i <= sample <= wts@.len(),
            sample <= 0xffff_ffff,
            s == prefix_sum(wts@, i as int),
            s <= i * 0xffff_ffff_ffff_ffff,
        decreases sample - i,
    {
        proof {
            lemma_prefix_sum_bound(wts@, i + 1);
            assert((i + 1) * 0xffff_ffff_ffff_ffff <= 0xffff_ffff * 0xffff_ffff_ffff_ffff)
                by (nonlinear_arith)
                requires
                    0 <= i + 1 <= 0xffff_ffff,
            ;
        }
        s = s + wts[i] as u128;
        i += 1;
    }
    proof {
        lemma_prefix_sum_bound(wts@, sample as int);
        assert(s / (sample as u128) <= 0xffff_ffff_ffff_ffff) by (nonlinear_arith)
            requires
                0 < sample,
                0 <= s <= sample * 0xffff_ffff_ffff_ffff,
        ;
    }
    let avg: u128 = s / (sample as u128);
    if avg == 0 {
        UNIT
    } else {
        avg as u64
    }
}

/// `base` times `mult_x1000` thousandths, within the limits of a selection.
pub open spec fn scaled_delta(base: u64, mult_x1000: u64) -> u64 {
    let raw = base * mult_x1000 / 1000;
    if raw < DELTA_MIN {
        DELTA_MIN
    } else if raw > DELTA_MAX {
        DELTA_MAX
    } else {
        raw as u64
    }
}

/// Computes `scaled_delta`.
pub fn scale_delta(base: u64, mult_x1000: u64) -> (d: u64)
    ensures
        d == scaled_delta(base, mult_x1000),
        DELTA_MIN <= d <= DELTA_MAX,
{
    proof {
        assert(base * mult_x1000 <= 0xffff_ffff_ffff_ffff * 0xffff_ffff_ffff_ffff)
            by (nonlinear_arith)
            requires
                0 <= base <= 0xffff_ffff_ffff_ffff,
                0 <= mult_x1000 <= 0xffff_ffff_ffff_ffff,
        ;
    }
    let raw: u128 = (base as u128) * (mult_x1000 as u128) / 1000;
    if raw < DELTA_MIN as u128 {
        DELTA_MIN
    } else if raw > DELTA_MAX as u128 {
        DELTA_MAX
    } else {
        raw as u64
    }
}

/// The weights are in ascending order.
pub open spec fn ascending(s: Seq<u64>) -> bool {
    forall|i: int, j: int| 0 <= i <= j < s.len() ==> s[i] <= s[j]
}

/// The heap entries that stand for the weights.
pub open spec fn as_items(s: Seq<u64>) -> Seq<HeapItem> {
    Seq::new(s.len(), |i: int| HeapItem { dist: s[i], node: 0 })
}

/// `sorted` holds the weights of `sample` in ascending order.
pub open spec fn is_sorted_copy(sample: Seq<u64>, sorted: Seq<u64>) -> bool {
    &&& ascending(sorted)
    &&& sorted.len() == sample.len()
    &&& as_items(sorted).to_multiset() == as_items(sample).to_multiset()
}

/// A heap entry that stands for a weight has node 0.
proof fn lemma_item_node(s: Seq<u64>, y: HeapItem)
    requires
        as_items(s).to_multiset().count(y) > 0,
    ensures
        y.node == 0,
{
    vstd::seq_lib::to_multiset_contains(as_items(s), y);
    let i = choose|i: int| 0 <= i < as_items(s).len() && as_items(s)[i] == y;
    assert(as_items(s)[i].node == 0);
}

/// The first `take` weights in ascending order.
pub fn sorted_sample(wts: &[u64], take: usize) -> (out: Vec<u64>)
    requires
        take <= wts@.len(),
        take <= 0xffff_ffff,
    ensures
        is_sorted_copy(wts@.take(take as int), out@),
{
    let ghost sample = wts@.take(take as int);
    let mut heap = MinHeap::with_cap(take);
    let mut i: usize = 0;
    proof {
        assert(as_items(sample.take(0)) =~= Seq::<HeapItem>::empty());
        vstd::seq_lib::to_multiset_len(as_items(sample.take(0)));
        vstd::multiset::lemma_multiset_empty_len(as_items(sample.take(0)).to_multiset());
    }
    while i < take
        invariant
            i <= take <= wts@.len(),
            take <= 0xffff_ffff,
            sample == wts@.take(take as int),
            heap.wf(),
            heap.pushed() == i,
            heap.popped() == 0,
            heap.items() == as_items(sample.take(i as int)).to_multiset(),
        decreases take - i,
    {
        let it = HeapItem { dist: wts[i], node: 0 };
        proof {
            let a = as_items(sample.take(i as int));
            let b = as_items(sample.take(i + 1));
            assert(b =~= a.push(it));
            vstd::seq_lib::to_multiset_build(a, it);
        }
        heap.push(it);
        i += 1;
    }
    let mut out: Vec<u64> = Vec::new();
    proof {
        assert(sample.take(take as int) =~= sample);
        assert(as_items(out@) =~= Seq::<HeapItem>::empty());
        vstd::seq_lib::to_multiset_len(as_items(out@));
        vstd::multiset::lemma_multiset_empty_len(as_items(out@).to_multiset());
        heap.lemma_size();
        broadcast use vstd::multiset::group_multiset_axioms;

        assert(as_items(out@).to_multiset().add(heap.items()) =~= as_items(sample).to_multiset());
    }
    loop
        invariant
            heap.wf(),
            heap.size() + out@.len() == take,
            as_items(out@).to_multiset().add(heap.items()) == as_items(sample).to_multiset(),
            ascending(out@),
            forall|y: HeapItem|
                heap.items().count(y) > 0 && out@.len() > 0 ==> out@.last() <= #[trigger] y.dist,
            sample.len() == take,
        ensures
            out@.len() == take,
            as_items(out@).to_multiset() == as_items(sample).to_multiset(),
            ascending(out@),
        decreases heap.size(),
    {
        proof {
            heap.lemma_size();
        }
        let ghost h0 = heap.items();
        let ghost o0 = out@;
        match heap.pop() {
            None => {
                proof {
                    broadcast use vstd::multiset::group_multiset_axioms;

                    assert(h0 =~= Multiset::empty());
                    assert(as_items(out@).to_multiset().add(h0) =~= as_items(out@).to_multiset());
                }
                break ;
            },
            Some(x) => {
                proof {
                    broadcast use vstd::multiset::group_multiset_axioms;

                    assert(as_items(sample).to_multiset().count(x) > 0);
                }
                out.push(x.dist);
                proof {
                    broadcast use vstd::multiset::group_multiset_axioms;

                    lemma_item_node(sample, x);
                    assert(x == HeapItem { dist: x.dist, node: 0 });
                    assert(as_items(out@) =~= as_items(o0).push(x));
                    vstd::seq_lib::to_multiset_build(as_items(o0), x);
                    assert(as_items(out@).to_multiset().add(heap.items()) =~= as_items(
                        o0,
                    ).to_multiset().add(h0));
                    assert forall|i: int, j: int| 0 <= i <= j < out@.len() implies out@[i]
                        <= out@[j] by {
                        if j == o0.len() && i < j {
                            assert(o0[i] <= o0.last());
                        }
                    }
                }
            },
        }
    }
    out
}

/// Index of the quantile in a sorted sample of `len` weights, where
/// `heavy_target_x1000` thousandths of the weights are to lie above it:
/// `(len - 1) * (1 - target)`, rounded to the nearest index.
pub open spec fn quantile_index(len: int, heavy_target_x1000: u32) -> int {
    ((len - 1) * (1000 - heavy_target_x1000) + 500) / 1000
}

/// `t` within 0.01 and 0.9, in thousandths.
pub open spec fn clamp_target(t: u32) -> u32 {
    if t < 10 {
        10
    } else if t > 900 {
        900
    } else {
        t
    }
}

/// Computes `clamp_target`.
pub fn heavy_target(t: u32) -> (r: u32)
    ensures
        r == clamp_target(t),
{
    if t < 10 {
        10
    } else if t > 900 {
        900
    } else {
        t
    }
}

/// The weight at the quantile of the first weights, at least `DELTA_MIN`;
/// 1.0 where there is no weight. `sorted` is the sample in ascending order.
pub open spec fn quantile_of(sorted: Seq<u64>, heavy_target_x1000: u32) -> u64 {
    if sorted.len() == 0 {
        UNIT
    } else {
        let q = sorted[quantile_index(sorted.len() as int, clamp_target(heavy_target_x1000))];
        if q < DELTA_MIN {
            DELTA_MIN
        } else {
            q
        }
    }
}

/// The quantile of the first `QUANTILE_SAMPLE` weights.
pub fn quantile_base(wts: &[u64], heavy_target_x1000: u32) -> (r: (u64, Ghost<Seq<u64>>))
    ensures
        is_sorted_copy(wts@.take(min_of(QUANTILE_SAMPLE as int, wts@.len() as int)), r.1@),
        r.0 == quantile_of(r.1@, heavy_target_x1000),
        r.0 >= 1,
{
    let take: usize = if wts.len() < QUANTILE_SAMPLE { wts.len() } else { QUANTILE_SAMPLE };
    let samp = sorted_sample(wts, take);
    if samp.len() == 0 {
        return (UNIT, Ghost(samp@));
    }
    let t: u32 = heavy_target(heavy_target_x1000);
    let len: usize = samp.len();
    let c: usize = (1000 - t) as usize;
    proof {
        assert((len - 1) * c <= 5000 * 990) by (nonlinear_arith)
            requires
                0 <= len - 1 <= 5000,
                0 <= c <= 990,
        ;
        assert(((len - 1) * c + 500) / 1000 <= len - 1) by (nonlinear_arith)
            requires
                0 <= len - 1,
                0 <= c <= 990,
        ;
    }
    let q_index: usize = ((len - 1) * c + 500) / 1000;
    let q: u64 = samp[q_index];
    let base: u64 = if q < DELTA_MIN { DELTA_MIN } else { q };
    (base, Ghost(samp@))
}

} // verus!

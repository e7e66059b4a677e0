//! What the subtree sizes of a collected set count: where every collected
//! vertex is listed once, after its predecessor, the size of a root is the
//! number of collected vertices whose predecessor chain ends at it, and
//! the sizes of the roots sum to the number of collected vertices.

use vstd::prelude::*;
use crate::pivot::{
    in_set, is_root, size_step, sizes_from, subtree_sizes, roots_of, root_sizes_of, max_of, forest_ok,
};
use crate::search::parent_listed;
use crate::basecase::count_reached;

verus! {

/// Every collected entry of `order` that is no root has its predecessor before itself.
pub open spec fn parents_first(dist: Seq<u64>, pred: Seq<i32>, bound: u64, order: Seq<u32>) -> bool {
    forall|i: int|
        0 <= i < order.len() && in_set(dist, bound, (#[trigger] order[i]) as int) && !is_root(
            dist,
            pred,
            bound,
            order[i] as int,
        ) ==> parent_listed(pred, order, i, order[i] as int)
}

/// A position before `i` that holds the predecessor of entry `i`.
pub open spec fn parent_index(pred: Seq<i32>, order: Seq<u32>, i: int) -> int {
    choose|j: int| 0 <= j < i && (#[trigger] order[j]) as int == pred[order[i] as int] as int
}

/// The root at which the predecessor chain of entry `i` ends; -1 where
/// the entry is not collected or its chain leaves `order`.
pub open spec fn root_at(dist: Seq<u64>, pred: Seq<i32>, bound: u64, order: Seq<u32>, i: int) -> int
    decreases i,
{
    if i < 0 || i >= order.len() || !in_set(dist, bound, order[i] as int) {
        -1
    } else if is_root(dist, pred, bound, order[i] as int) {
        order[i] as int
    } else if parent_listed(pred, order, i, order[i] as int) {
        root_at(dist, pred, bound, order, parent_index(pred, order, i))
    } else {
        -1
    }
}

/// Entry `i` is collected and, where `r` is a vertex, its chain ends at `r`.
pub open spec fn counted(
    dist: Seq<u64>,
    pred: Seq<i32>,
    bound: u64,
    order: Seq<u32>,
    r: int,
    i: int,
) -> bool {
    in_set(dist, bound, order[i] as int) && (r < 0 || root_at(dist, pred, bound, order, i) == r)
}

/// Number of entries from position `j` on that are collected and, where
/// `r` is a vertex, have a chain that ends at `r`.
pub open spec fn count_from(
    dist: Seq<u64>,
    pred: Seq<i32>,
    bound: u64,
    order: Seq<u32>,
    r: int,
    j: int,
) -> int
    decreases order.len() - j,
{
    if j >= order.len() {
        0
    } else {
        count_from(dist, pred, bound, order, r, j + 1) + if counted(dist, pred, bound, order, r, j) {
            1int
        } else {
            0int
        }
    }
}

/// The size that entry `i` holds for itself once the entries from `j` on
/// are taken up: 0 where it is not counted, or has handed its size on.
pub open spec fn live(
    dist: Seq<u64>,
    pred: Seq<i32>,
    bound: u64,
    order: Seq<u32>,
    r: int,
    j: int,
    i: int,
) -> bool {
    counted(dist, pred, bound, order, r, i) && (i < j || is_root(dist, pred, bound, order[i] as int))
}

/// For every entry what it holds once the entries from `j` on are taken up.
pub open spec fn terms(
    dist: Seq<u64>,
    pred: Seq<i32>,
    bound: u64,
    order: Seq<u32>,
    r: int,
    j: int,
) -> Seq<int> {
    Seq::new(
        order.len(),
        |i: int|
            if live(dist, pred, bound, order, r, j, i) {
                sizes_from(dist, pred, bound, order, j)[order[i] as int] as int
            } else {
                0int
            },
    )
}

/// Sum of the entries.
pub open spec fn seq_sum(s: Seq<int>) -> int
    decreases s.len(),
{
    if s.len() == 0 {
        0
    } else {
        seq_sum(s.drop_last()) + s.last()
    }
}

/// Sum of the entries.
pub open spec fn sum_u32(s: Seq<u32>) -> int
    decreases s.len(),
{
    if s.len() == 0 {
        0
    } else {
        sum_u32(s.drop_last()) + s.last()
    }
}

/// Changing one entry changes the sum by the difference.
pub proof fn lemma_sum_update(s: Seq<int>, i: int, x: int)
    requires
        0 <= i < s.len(),
    ensures
        seq_sum(s.update(i, x)) == seq_sum(s) - s[i] + x,
    decreases s.len(),
{
    let t = s.update(i, x);
    if i == s.len() - 1 {
        assert(t.drop_last() =~= s.drop_last());
    } else {
        lemma_sum_update(s.drop_last(), i, x);
        assert(t.drop_last() =~= s.drop_last().update(i, x));
    }
}

/// A sum of entries that are not negative is not negative.
pub proof fn lemma_sum_nonneg(s: Seq<int>)
    requires
        forall|i: int| 0 <= i < s.len() ==> s[i] >= 0,
    ensures
        seq_sum(s) >= 0,
    decreases s.len(),
{
    if s.len() > 0 {
        lemma_sum_nonneg(s.drop_last());
    }
}

/// Among entries that are not negative, no two together exceed the sum.
pub proof fn lemma_sum_two(s: Seq<int>, i: int, k: int)
    requires
        forall|t: int| 0 <= t < s.len() ==> s[t] >= 0,
        0 <= i < s.len(),
        0 <= k < s.len(),
        i != k,
    ensures
        s[i] + s[k] <= seq_sum(s),
        s[i] <= seq_sum(s),
{
    let a = s.update(i, 0);
    let b = a.update(k, 0);
    lemma_sum_update(s, i, 0);
    lemma_sum_update(a, k, 0);
    lemma_sum_nonneg(b);
}

/// Between none and all of the entries from `j` on are counted.
pub proof fn lemma_count_from_le(
    dist: Seq<u64>,
    pred: Seq<i32>,
    bound: u64,
    order: Seq<u32>,
    r: int,
    j: int,
)
    requires
        0 <= j <= order.len(),
    ensures
        0 <= count_from(dist, pred, bound, order, r, j) <= order.len() - j,
    decreases order.len() - j,
{
    if j < order.len() {
        lemma_count_from_le(dist, pred, bound, order, r, j + 1);
    }
}

/// The sizes have one slot per vertex.
pub proof fn lemma_sizes_len(dist: Seq<u64>, pred: Seq<i32>, bound: u64, order: Seq<u32>, j: int)
    requires
        0 <= j <= order.len(),
    ensures
        sizes_from(dist, pred, bound, order, j).len() == dist.len(),
    decreases order.len() - j,
{
    if j < order.len() {
        lemma_sizes_len(dist, pred, bound, order, j + 1);
    }
}

/// What the entries hold together, once the entries from `j` on are taken
/// up, is the number of those that are counted.
pub proof fn lemma_terms(dist: Seq<u64>, pred: Seq<i32>, bound: u64, order: Seq<u32>, r: int, j: int)
    requires
        forest_ok(dist, pred, order),
        order.no_duplicates(),
        order.len() <= u32::MAX,
        parents_first(dist, pred, bound, order),
        0 <= j <= order.len(),
    ensures
        seq_sum(terms(dist, pred, bound, order, r, j)) == count_from(dist, pred, bound, order, r, j),
    decreases order.len() - j,
{
    let len = order.len() as int;
    let t = terms(dist, pred, bound, order, r, j);
    lemma_sizes_len(dist, pred, bound, order, j);
    if j == len {
        assert forall|i: int| 0 <= i < t.len() implies t[i] == 0 by {}
        lemma_sum_zero(t);
    } else {
        lemma_terms(dist, pred, bound, order, r, j + 1);
        lemma_terms(dist, pred, bound, order, -1, j + 1);
        lemma_count_from_le(dist, pred, bound, order, -1, j + 1);
        lemma_sizes_len(dist, pred, bound, order, j + 1);
        let u = order[j] as int;
        let size1 = sizes_from(dist, pred, bound, order, j + 1);
        let size = sizes_from(dist, pred, bound, order, j);
        assert(size == size_step(dist, pred, bound, size1, u));
        let t1 = terms(dist, pred, bound, order, r, j + 1);
        let all = terms(dist, pred, bound, order, -1, j + 1);
        assert forall|i: int| 0 <= i < all.len() implies all[i] >= 0 by {}
        if !in_set(dist, bound, u) {
            assert(t =~= t1);
        } else {
            let a = size1[u] as int;
            assert(all[j] == a);
            if is_root(dist, pred, bound, u) {
                if len > 1 {
                    let other = if j == 0 { 1int } else { 0int };
                    lemma_sum_two(all, j, other);
                } else {
                    lemma_sum_update(all, j, 0);
                    lemma_sum_zero(all.update(j, 0));
                }
                assert(a + 1 <= u32::MAX);
                assert(size[u] == a + 1);
                assert forall|i: int| 0 <= i < len && i != j implies size[order[i] as int]
                    == size1[order[i] as int] by {
                    assert(order[i] != order[j]);
                }
                assert(t =~= t1.update(j, t[j]));
                lemma_sum_update(t1, j, t[j]);
            } else {
                assert(parent_listed(pred, order, j, u));
                let jp = parent_index(pred, order, j);
                let p = pred[u] as int;
                assert(order[jp] as int == p);
                assert(order[jp] != order[j]);
                let bp = size1[p] as int;
                assert(all[jp] == bp);
                lemma_sum_two(all, j, jp);
                assert(a + bp + 1 <= u32::MAX);
                assert(size[u] == a + 1);
                assert(size[p] == bp + a + 1);
                assert forall|i: int| 0 <= i < len && i != j && i != jp implies size[order[i] as int]
                    == size1[order[i] as int] by {
                    assert(order[i] != order[j]);
                    assert(order[i] != order[jp]);
                }
                assert(root_at(dist, pred, bound, order, j) == root_at(dist, pred, bound, order, jp));
                if counted(dist, pred, bound, order, r, j) {
                    let t2 = t1.update(j, 0);
                    assert(t =~= t2.update(jp, bp + a + 1));
                    lemma_sum_update(t1, j, 0);
                    lemma_sum_update(t2, jp, bp + a + 1);
                } else {
                    assert(t =~= t1);
                }
            }
        }
    }
}

/// A sum of zeros is 0.
pub proof fn lemma_sum_zero(s: Seq<int>)
    requires
        forall|i: int| 0 <= i < s.len() ==> s[i] == 0,
    ensures
        seq_sum(s) == 0,
    decreases s.len(),
{
    if s.len() > 0 {
        lemma_sum_zero(s.drop_last());
    }
}

/// The sizes in `size` of the vertices of `list`.
pub open spec fn list_sizes(list: Seq<u32>, size: Seq<u32>) -> Seq<u32> {
    Seq::new(list.len(), |i: int| size[list[i] as int])
}

/// For every entry the size of its vertex where that is a root, else 0.
pub open spec fn root_terms(
    dist: Seq<u64>,
    pred: Seq<i32>,
    bound: u64,
    order: Seq<u32>,
    size: Seq<u32>,
) -> Seq<int> {
    Seq::new(
        order.len(),
        |i: int|
            if is_root(dist, pred, bound, order[i] as int) {
                size[order[i] as int] as int
            } else {
                0int
            },
    )
}

/// The sizes of the roots among `order`, summed along the list of roots,
/// are what the entries that are roots hold together.
pub proof fn lemma_roots_sum(dist: Seq<u64>, pred: Seq<i32>, bound: u64, order: Seq<u32>, size: Seq<u32>)
    ensures
        sum_u32(list_sizes(roots_of(dist, pred, bound, order), size)) == seq_sum(
            root_terms(dist, pred, bound, order, size),
        ),
    decreases order.len(),
{
    let roots = roots_of(dist, pred, bound, order);
    let t = root_terms(dist, pred, bound, order, size);
    if order.len() > 0 {
        let q = order.drop_last();
        lemma_roots_sum(dist, pred, bound, q, size);
        let rq = roots_of(dist, pred, bound, q);
        assert(t.drop_last() =~= root_terms(dist, pred, bound, q, size));
        if is_root(dist, pred, bound, order.last() as int) {
            assert(roots == rq.push(order.last()));
            assert(list_sizes(roots, size).drop_last() =~= list_sizes(rq, size));
        } else {
            assert(roots == rq);
        }
    } else {
        assert(list_sizes(roots, size) =~= Seq::<u32>::empty());
    }
}

/// No entry exceeds the sum, and so the largest does not.
pub proof fn lemma_max_le_sum(s: Seq<u32>)
    ensures
        0 <= max_of(s) <= sum_u32(s),
    decreases s.len(),
{
    if s.len() > 0 {
        lemma_max_le_sum(s.drop_last());
    }
}

/// Without its last entry, a list has one counted entry fewer where that
/// entry is collected.
pub proof fn lemma_count_from_drop_last(
    dist: Seq<u64>,
    pred: Seq<i32>,
    bound: u64,
    order: Seq<u32>,
    j: int,
)
    requires
        order.len() > 0,
        0 <= j < order.len(),
    ensures
        count_from(dist, pred, bound, order, -1, j) == count_from(
            dist,
            pred,
            bound,
            order.drop_last(),
            -1,
            j,
        ) + if in_set(dist, bound, order.last() as int) {
            1int
        } else {
            0int
        },
    decreases order.len() - j,
{
    let q = order.drop_last();
    if j < order.len() - 1 {
        lemma_count_from_drop_last(dist, pred, bound, order, j + 1);
        assert(q[j] == order[j]);
    } else {
        assert(order[j] == order.last());
        assert(count_from(dist, pred, bound, order, -1, j + 1) == 0);
        assert(count_from(dist, pred, bound, q, -1, j) == 0);
    }
}

/// No more entries are collected than are reached.
pub proof fn lemma_count_from_reached(dist: Seq<u64>, pred: Seq<i32>, bound: u64, order: Seq<u32>)
    ensures
        count_from(dist, pred, bound, order, -1, 0) <= count_reached(order, dist),
    decreases order.len(),
{
    if order.len() > 0 {
        lemma_count_from_drop_last(dist, pred, bound, order, 0);
        lemma_count_from_reached(dist, pred, bound, order.drop_last());
    }
}

/// Where every collected vertex of `order` is listed once, after its
/// predecessor: the size of a root is the number of collected entries whose
/// predecessor chain ends at it; the sizes of the roots sum to the number
/// of collected entries; and no size exceeds the number of entries.
pub proof fn lemma_subtree_sizes(dist: Seq<u64>, pred: Seq<i32>, bound: u64, order: Seq<u32>)
    requires
        forest_ok(dist, pred, order),
        order.no_duplicates(),
        order.len() <= u32::MAX,
        parents_first(dist, pred, bound, order),
    ensures
        forall|i: int|
            0 <= i < order.len() && is_root(dist, pred, bound, (#[trigger] order[i]) as int)
                ==> subtree_sizes(dist, pred, bound, order)[order[i] as int] == count_from(
                dist,
                pred,
                bound,
                order,
                order[i] as int,
                0,
            ),
        sum_u32(root_sizes_of(dist, pred, bound, order)) == count_from(dist, pred, bound, order, -1, 0),
        max_of(root_sizes_of(dist, pred, bound, order)) <= count_from(dist, pred, bound, order, -1, 0),
        count_from(dist, pred, bound, order, -1, 0) <= order.len(),
{
    let size = subtree_sizes(dist, pred, bound, order);
    assert forall|i: int|
        0 <= i < order.len() && is_root(dist, pred, bound, (#[trigger] order[i]) as int) implies size[order[i] as int]
        == count_from(dist, pred, bound, order, order[i] as int, 0) by {
        let r = order[i] as int;
        lemma_terms(dist, pred, bound, order, r, 0);
        let t = terms(dist, pred, bound, order, r, 0);
        let z = t.update(i, 0);
        assert forall|k: int| 0 <= k < z.len() implies z[k] == 0 by {
            if k != i && live(dist, pred, bound, order, r, 0, k) {
                assert(root_at(dist, pred, bound, order, k) == order[k] as int);
                assert(order[k] == order[i]);
            }
        }
        lemma_sum_zero(z);
        lemma_sum_update(t, i, 0);
        assert(root_at(dist, pred, bound, order, i) == r);
        assert(t[i] == size[r] as int);
    }
    lemma_terms(dist, pred, bound, order, -1, 0);
    lemma_roots_sum(dist, pred, bound, order, size);
    assert(terms(dist, pred, bound, order, -1, 0) =~= root_terms(dist, pred, bound, order, size));
    assert(root_sizes_of(dist, pred, bound, order) =~= list_sizes(
        roots_of(dist, pred, bound, order),
        size,
    ));
    lemma_max_le_sum(root_sizes_of(dist, pred, bound, order));
    lemma_count_from_le(dist, pred, bound, order, -1, 0);
}

} // verus!

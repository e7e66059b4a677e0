//! Graph view in compressed-sparse-row form, walks, and what it means for a
//! number to be a shortest-path distance.
//!
//! Weights and distances are fixed-point numbers: `UNIT` ticks make 1.0, and
//! `INF` stands for "unreached". Sums saturate at `INF`.

use vstd::prelude::*;

verus! {

/// The distance of an unreached vertex. No weight and no finite distance equals it.
pub const INF: u64 = u64::MAX;

/// Ticks per 1.0 in the fixed-point representation of weights and distances.
pub const UNIT: u64 = 1_000_000;

/// Largest vertex count: predecessors are signed 32-bit vertex indices.
pub const MAX_VERTICES: u32 = 0x7fff_ffff;

/// Status of a run that completed.
pub const STATUS_OK: i32 = 0;

/// Status: the graph has no vertex.
pub const STATUS_EMPTY_GRAPH: i32 = -1;

/// Status: the source is not a vertex of the graph.
pub const STATUS_SOURCE_OUT_OF_RANGE: i32 = -2;

/// Status: a required buffer is absent, or not of one slot per vertex.
pub const STATUS_NULL_BUFFER: i32 = -3;

/// Status: the offsets, targets and weights do not form a graph.
pub const STATUS_MALFORMED_CSR: i32 = -4;

/// Status: a bucket index went beyond the safety cap.
pub const STATUS_CAP_EXCEEDED: i32 = -5;

/// The mathematical graph that a CSR triple describes.
pub struct Graph {
    pub n: nat,
    pub off: Seq<u32>,
    pub tgt: Seq<u32>,
    pub wts: Seq<u64>,
}

impl Graph {
    /// Number of edges.
    pub open spec fn m(self) -> nat {
        self.tgt.len()
    }

    /// The shape that every engine relies on: `n + 1` monotone offsets from 0
    /// to the edge count, targets inside the graph, finite weights.
    pub open spec fn wf(self) -> bool {
        &&& 0 < self.n <= MAX_VERTICES
        &&& self.off.len() == self.n + 1
        &&& self.off[0] == 0
        &&& forall|i: int, j: int|
            0 <= i <= j <= self.n ==> #[trigger] self.off[i] <= #[trigger] self.off[j]
        &&& self.off[self.n as int] == self.tgt.len()
        &&& self.wts.len() == self.tgt.len()
        &&& forall|e: int| 0 <= e < self.tgt.len() ==> #[trigger] self.tgt[e] < self.n
        &&& forall|e: int| 0 <= e < self.wts.len() ==> #[trigger] self.wts[e] < INF
    }

    /// Edge `e` leaves vertex `u`.
    pub open spec fn edge_from(self, u: int, e: int) -> bool {
        &&& 0 <= u < self.n
        &&& self.off[u] <= e < self.off[u + 1]
    }

    /// The vertex at which a walk from `s` ends. A walk is the sequence of
    /// its edge indices.
    pub open spec fn walk_end(self, s: int, p: Seq<int>) -> int {
        if p.len() == 0 {
            s
        } else {
            self.tgt[p.last()] as int
        }
    }

    /// `p` is a walk that starts at `s`: every edge leaves the vertex at
    /// which the edges before it end.
    pub open spec fn is_walk(self, s: int, p: Seq<int>) -> bool
        decreases p.len(),
    {
        if p.len() == 0 {
            0 <= s < self.n
        } else {
            &&& self.is_walk(s, p.drop_last())
            &&& self.edge_from(self.walk_end(s, p.drop_last()), p.last())
        }
    }

    /// Total weight of the edges of `p`, unbounded.
    pub open spec fn walk_len(self, p: Seq<int>) -> int
        decreases p.len(),
    {
        if p.len() == 0 {
            0
        } else {
            self.walk_len(p.drop_last()) + self.wts[p.last()]
        }
    }

    /// `p` is a walk from `s` to `v`.
    pub open spec fn walk_to(self, s: int, v: int, p: Seq<int>) -> bool {
        self.is_walk(s, p) && self.walk_end(s, p) == v
    }

    /// No walk from `s` to `v` is shorter than `d`.
    pub open spec fn no_walk_below(self, s: int, v: int, d: int) -> bool {
        forall|p: Seq<int>| #[trigger] self.walk_to(s, v, p) ==> d <= self.walk_len(p)
    }

    /// Some walk from `s` to `v` has length exactly `d`.
    pub open spec fn walk_of_len(self, s: int, v: int, d: int) -> bool {
        exists|p: Seq<int>| #[trigger] self.walk_to(s, v, p) && self.walk_len(p) == d
    }

    /// Some walk from `s` to `v` has length at most `d`.
    pub open spec fn within(self, s: int, v: int, d: int) -> bool {
        exists|p: Seq<int>| #[trigger] self.walk_to(s, v, p) && self.walk_len(p) <= d
    }

    /// `d` is the shortest-path distance from `s` to `v`, with `INF` for a
    /// vertex that no walk of representable length reaches.
    pub open spec fn is_dist(self, s: int, v: int, d: u64) -> bool {
        &&& self.no_walk_below(s, v, d as int)
        &&& d < INF ==> self.walk_of_len(s, v, d as int)
    }

    /// `dist` holds the shortest-path distance of every vertex.
    pub open spec fn is_solution(self, s: int, dist: Seq<u64>) -> bool {
        &&& dist.len() == self.n
        &&& forall|v: int| 0 <= v < self.n ==> self.is_dist(s, v, #[trigger] dist[v])
    }

    /// Every reached vertex but the source names a predecessor whose
    /// distance plus one edge's weight gives its own; the source and the
    /// unreached vertices name none.
    pub open spec fn pred_tight(self, s: int, dist: Seq<u64>, pred: Seq<i32>) -> bool {
        &&& dist.len() == self.n
        &&& pred.len() == self.n
        &&& forall|v: int|
            0 <= v < self.n && (v == s || dist[v] == INF) ==> #[trigger] pred[v] == -1
        &&& forall|v: int|
            0 <= v < self.n && v != s && dist[v] < INF ==> self.tight_at(
                dist,
                #[trigger] pred[v] as int,
                v,
            )
    }

    /// Some edge from `u` to `v` has the weight `dist[v] - dist[u]`, and `u` is reached.
    pub open spec fn tight_at(self, dist: Seq<u64>, u: int, v: int) -> bool {
        &&& 0 <= u < self.n
        &&& dist[u] < INF
        &&& exists|e: int|
            #[trigger] self.edge_from(u, e) && self.tgt[e] == v && dist[u] + self.wts[e]
                == dist[v]
    }
}

/// The graph that the four parts of a CSR view describe.
pub open spec fn graph_of(n: u32, offsets: &[u32], targets: &[u32], weights: &[u64]) -> Graph {
    Graph { n: n as nat, off: offsets@, tgt: targets@, wts: weights@ }
}

/// Walk lengths are never negative.
pub proof fn lemma_walk_len_nonneg(g: Graph, p: Seq<int>)
    ensures
        0 <= g.walk_len(p),
    decreases p.len(),
{
    if p.len() > 0 {
        lemma_walk_len_nonneg(g, p.drop_last());
    }
}

/// A walk ends inside the graph.
pub proof fn lemma_walk_end_in_graph(g: Graph, s: int, p: Seq<int>)
    requires
        g.wf(),
        g.is_walk(s, p),
    ensures
        0 <= g.walk_end(s, p) < g.n,
{
    if p.len() > 0 {
        let e = p.last();
        let u = g.walk_end(s, p.drop_last());
        assert(g.edge_from(u, e));
        assert(g.off[u + 1] <= g.off[g.n as int]);
        assert(g.tgt[e] < g.n);
    }
}

/// Adding an edge that leaves the end of a walk gives a walk to the edge's
/// target, longer by the edge's weight.
pub proof fn lemma_walk_extend(g: Graph, s: int, p: Seq<int>, e: int)
    requires
        g.is_walk(s, p),
        g.edge_from(g.walk_end(s, p), e),
    ensures
        g.is_walk(s, p.push(e)),
        g.walk_end(s, p.push(e)) == g.tgt[e] as int,
        g.walk_len(p.push(e)) == g.walk_len(p) + g.wts[e],
{
    let q = p.push(e);
    assert(q.drop_last() =~= p);
    assert(q.last() == e);
}

/// The shortest-path distance of a vertex is unique: two arrays that both
/// hold the distances from one source are equal, so two runs of any engine
/// that returns the distances agree.
pub proof fn lemma_solution_unique(g: Graph, s: int, d1: Seq<u64>, d2: Seq<u64>)
    requires
        g.is_solution(s, d1),
        g.is_solution(s, d2),
    ensures
        d1 == d2,
{
    assert forall|v: int| 0 <= v < g.n implies d1[v] == d2[v] by {
        lemma_dist_unique(g, s, v, d1[v], d2[v]);
    }
    assert(d1 =~= d2);
}

/// A vertex has one shortest-path distance.
pub proof fn lemma_dist_unique(g: Graph, s: int, v: int, a: u64, b: u64)
    requires
        g.is_dist(s, v, a),
        g.is_dist(s, v, b),
    ensures
        a == b,
{
    if a < b {
        let p = choose|p: Seq<int>| #[trigger] g.walk_to(s, v, p) && g.walk_len(p) == a as int;
        assert(g.walk_to(s, v, p));
    } else if b < a {
        let p = choose|p: Seq<int>| #[trigger] g.walk_to(s, v, p) && g.walk_len(p) == b as int;
        assert(g.walk_to(s, v, p));
    }
}

/// The source is at distance 0 from itself.
pub proof fn lemma_source_dist(g: Graph, s: int)
    requires
        0 <= s < g.n,
    ensures
        g.is_dist(s, s, 0),
{
    let e = Seq::<int>::empty();
    assert(g.walk_to(s, s, e));
    assert(g.walk_len(e) == 0);
    assert forall|p: Seq<int>| #[trigger] g.walk_to(s, s, p) implies 0 <= g.walk_len(p) by {
        lemma_walk_len_nonneg(g, p);
    }
}

/// A borrowed CSR view whose shape has been checked.
pub struct Csr<'a> {
    pub n: u32,
    pub offsets: &'a [u32],
    pub targets: &'a [u32],
    pub weights: &'a [u64],
}

impl<'a> View for Csr<'a> {
    type V = Graph;

    open spec fn view(&self) -> Graph {
        graph_of(self.n, self.offsets, self.targets, self.weights)
    }
}

impl<'a> Csr<'a> {
    /// First edge index of `u`.
    pub fn first_edge(&self, u: u32) -> (r: usize)
        requires
            self@.wf(),
            u < self.n,
        ensures
            r == self@.off[u as int],
            r <= self@.off[u + 1],
            self@.off[u + 1] <= self@.m(),
    {
        assert(self@.off[u as int] <= self@.off[u + 1]);
        assert(self@.off[u + 1] <= self@.off[self.n as int]);
        self.offsets[u as usize] as usize
    }

    /// One past the last edge index of `u`.
    pub fn end_edge(&self, u: u32) -> (r: usize)
        requires
            self@.wf(),
            u < self.n,
        ensures
            r == self@.off[u + 1],
            r <= self@.m(),
    {
        assert(self@.off[u + 1] <= self@.off[self.n as int]);
        self.offsets[u as usize + 1] as usize
    }
}

/// Checks the shape of a CSR triple: `n + 1` offsets that start at 0, never
/// decrease and end at the edge count; one weight per target; every target
/// a vertex; every weight finite; at most `MAX_VERTICES` vertices.
pub fn csr_is_valid(n: u32, offsets: &[u32], targets: &[u32], weights: &[u64]) -> (ok: bool)
    ensures
        ok == graph_of(n, offsets, targets, weights).wf(),
{
    let ghost g = graph_of(n, offsets, targets, weights);
    if n == 0 || n > MAX_VERTICES {
        return false;
    }
    let nu: usize = n as usize;
    if offsets.len() != nu + 1 {
        return false;
    }
    if offsets[0] != 0 {
        return false;
    }
    let m: usize = targets.len();
    if weights.len() != m {
        return false;
    }
    if offsets[nu] as usize != m {
        return false;
    }
    let mut i: usize = 0;
    while i < nu
        invariant
            i <= nu,
            nu == n,
            offsets@.len() == nu + 1,
            g == graph_of(n, offsets, targets, weights),
            forall|a: int, b: int| 0 <= a <= b <= i ==> #[trigger] offsets@[a] <= #[trigger] offsets@[b],
        decreases nu - i,
    {
        if offsets[i] > offsets[i + 1] {
            assert(!(g.off[i as int] <= g.off[i + 1]));
            return false;
        }
        assert forall|a: int, b: int| 0 <= a <= b <= i + 1 implies #[trigger] offsets@[a]
            <= #[trigger] offsets@[b] by {
            if b == i + 1 && a <= i {
                assert(offsets@[a] <= offsets@[i as int]);
            }
        }
        i += 1;
    }
    let mut e: usize = 0;
    while e < m
        invariant
            e <= m,
            m == targets@.len(),
            m == weights@.len(),
            g == graph_of(n, offsets, targets, weights),
            forall|j: int| 0 <= j < e ==> #[trigger] targets@[j] < n,
            forall|j: int| 0 <= j < e ==> #[trigger] weights@[j] < INF,
        decreases m - e,
    {
        if targets[e] >= n || weights[e] == INF {
            assert(!(g.tgt[e as int] < g.n) || !(g.wts[e as int] < INF));
            return false;
        }
        e += 1;
    }
    true
}

/// The status that every engine returns before it does any work: 0 where
/// the inputs describe a graph with `source` in it and one output slot per
/// vertex, else the first of the negative codes that applies.
pub open spec fn entry_status(
    n: u32,
    offsets: &[u32],
    targets: &[u32],
    weights: &[u64],
    source: u32,
    dist_len: nat,
    pred_len: nat,
) -> i32 {
    if n == 0 {
        STATUS_EMPTY_GRAPH
    } else if source >= n {
        STATUS_SOURCE_OUT_OF_RANGE
    } else if dist_len != n || pred_len != n {
        STATUS_NULL_BUFFER
    } else if !graph_of(n, offsets, targets, weights).wf() {
        STATUS_MALFORMED_CSR
    } else {
        STATUS_OK
    }
}

/// Computes `entry_status`.
pub fn check_entry(
    n: u32,
    offsets: &[u32],
    targets: &[u32],
    weights: &[u64],
    source: u32,
    dist_len: usize,
    pred_len: usize,
) -> (status: i32)
    ensures
        status == entry_status(n, offsets, targets, weights, source, dist_len as nat, pred_len as nat),
{
    if n == 0 {
        STATUS_EMPTY_GRAPH
    } else if source >= n {
        STATUS_SOURCE_OUT_OF_RANGE
    } else if dist_len != n as usize || pred_len != n as usize {
        STATUS_NULL_BUFFER
    } else if !csr_is_valid(n, offsets, targets, weights) {
        STATUS_MALFORMED_CSR
    } else {
        STATUS_OK
    }
}

/// Sum of a distance and a weight, `INF` where it would reach `INF`.
pub open spec fn sat_add(a: u64, b: u64) -> u64 {
    if a + b >= INF {
        INF
    } else {
        (a + b) as u64
    }
}

/// Computes `sat_add`.
pub fn dist_add(a: u64, b: u64) -> (r: u64)
    ensures
        r == sat_add(a, b),
{
    if a > INF - b {
        INF
    } else {
        a + b
    }
}

} // verus!

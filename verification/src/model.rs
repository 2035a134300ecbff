//! Mathematical model of the flow network.
//!
//! The executable code works on an adjacency structure (`Vec<Vec<usize>>`)
//! and a [`CapacityMatrix`]; the contracts speak of residual edges, residual
//! paths, reachability, and per-node residual sums defined here.

use vstd::prelude::*;
use crate::matrix::CapacityMatrix;

verus! {

/// One adjacency list per node; every listed neighbour is a node below `n`.
pub open spec fn graph_wf(g: Seq<Vec<usize>>, n: int) -> bool {
    &&& g.len() == n
    &&& forall|u: int, j: int|
        0 <= u < n && 0 <= j < g[u]@.len() ==> (#[trigger] g[u]@[j]) < n
}

/// `v` stands in `u`'s adjacency list.
pub open spec fn adj(g: Seq<Vec<usize>>, u: int, v: int) -> bool {
    exists|j: int| 0 <= j < g[u]@.len() && (#[trigger] g[u]@[j]) as int == v
}

/// A directed edge of the residual graph: a listed neighbour with residual
/// capacity left.
pub open spec fn res_edge(g: Seq<Vec<usize>>, m: CapacityMatrix, u: int, v: int) -> bool {
    adj(g, u, v) && m.cap(u, v) > 0
}

/// `p` walks from `s` to `t` along residual edges.
pub open spec fn is_res_path(
    g: Seq<Vec<usize>>,
    m: CapacityMatrix,
    p: Seq<int>,
    s: int,
    t: int,
) -> bool {
    &&& p.len() >= 1
    &&& p[0] == s
    &&& p[p.len() - 1] == t
    &&& forall|i: int| 0 <= i < p.len() ==> 0 <= #[trigger] p[i] < g.len()
    &&& forall|i: int| 0 <= i < p.len() - 1 ==> res_edge(g, m, #[trigger] p[i], p[i + 1])
}

/// `t` can be reached from `s` in the residual graph.
pub open spec fn reachable(g: Seq<Vec<usize>>, m: CapacityMatrix, s: int, t: int) -> bool {
    exists|p: Seq<int>| is_res_path(g, m, p, s, t)
}

/// Every residual capacity is non-negative.
pub open spec fn nonneg(m: CapacityMatrix) -> bool {
    forall|u: int, v: int| m.valid(u) && m.valid(v) ==> #[trigger] m.cap(u, v) >= 0
}

/// Each pair of opposite entries sums to at most `i32::MAX`; augmentation
/// moves capacity between the two entries of a pair, so this bound rules out
/// overflow for good.
pub open spec fn pair_sums_bounded(m: CapacityMatrix) -> bool {
    forall|u: int, v: int|
        m.valid(u) && m.valid(v) ==> #[trigger] m.cap(u, v) + m.cap(v, u) <= i32::MAX as int
}

/// A simple path recorded in the breadth-first parent array: node `v` was
/// reached from `s`, every hop is a listed edge with at least `f` residual
/// capacity, and following `parent` back from `v` replays the path.
pub open spec fn bfs_tree_path(
    g: Seq<Vec<usize>>,
    m: CapacityMatrix,
    parent: Seq<i32>,
    p: Seq<int>,
    s: int,
    v: int,
    f: int,
) -> bool {
    &&& p.len() >= 1
    &&& p[0] == s
    &&& p[p.len() - 1] == v
    &&& forall|i: int| 0 <= i < p.len() ==> 0 <= #[trigger] p[i] < g.len()
    &&& forall|i: int| 0 <= i < p.len() ==> parent[#[trigger] p[i]] != -1
    &&& forall|i: int, k: int| #![trigger p[i], p[k]] 0 <= i < k < p.len() ==> p[i] != p[k]
    &&& forall|i: int| 1 <= i < p.len() ==> parent[#[trigger] p[i]] as int == p[i - 1]
    &&& forall|i: int| 0 <= i < p.len() - 1 ==> adj(g, #[trigger] p[i], p[i + 1])
    &&& forall|i: int| 0 <= i < p.len() - 1 ==> m.cap(#[trigger] p[i], p[i + 1]) >= f
}

/// An augmenting path: a breadth-first tree path from source to sink that can
/// carry `f` more units of flow, and no more: some hop has exactly `f`
/// residual capacity, so `f` is the bottleneck of the path.
pub open spec fn aug_path(
    g: Seq<Vec<usize>>,
    m: CapacityMatrix,
    parent: Seq<i32>,
    p: Seq<int>,
    s: int,
    t: int,
    f: int,
) -> bool {
    &&& bfs_tree_path(g, m, parent, p, s, t, f)
    &&& p.len() >= 2
    &&& f >= 1
    &&& exists|i: int| 0 <= i < p.len() - 1 && #[trigger] m.cap(p[i], p[i + 1]) == f
}

/// The ordered pair `(u, v)` is a hop of `p` at position `k` or later.
pub open spec fn on_path_from(p: Seq<int>, k: int, u: int, v: int) -> bool {
    exists|i: int| k <= i < p.len() - 1 && #[trigger] p[i] == u && p[i + 1] == v
}

/// The ordered pair `(u, v)` is a hop of `p`.
pub open spec fn on_path(p: Seq<int>, u: int, v: int) -> bool {
    on_path_from(p, 0, u, v)
}

/// Sum of the first `k` entries of row `u`.
pub open spec fn row_sum_to(m: CapacityMatrix, u: int, k: int) -> int
    decreases k,
{
    if k <= 0 {
        0
    } else {
        row_sum_to(m, u, k - 1) + m.cap(u, k - 1)
    }
}

/// Total residual capacity leaving node `u`.
pub open spec fn row_sum(m: CapacityMatrix, u: int) -> int {
    row_sum_to(m, u, m.n as int)
}

proof fn lemma_row_sum_to_update(m1: CapacityMatrix, m2: CapacityMatrix, u: int, j: int, k: int)
    requires
        m1.n == m2.n,
        0 <= j,
        forall|v: int| 0 <= v < k && v != j ==> m1.cap(u, v) == #[trigger] m2.cap(u, v),
    ensures
        j < k ==> row_sum_to(m2, u, k) == row_sum_to(m1, u, k) + m2.cap(u, j) - m1.cap(u, j),
        j >= k ==> row_sum_to(m2, u, k) == row_sum_to(m1, u, k),
    decreases k,
{
    if k > 0 {
        lemma_row_sum_to_update(m1, m2, u, j, k - 1);
    }
}

/// Changing row `u` only in column `j` shifts the row sum by the change at `j`.
pub proof fn lemma_row_sum_update(m1: CapacityMatrix, m2: CapacityMatrix, u: int, j: int)
    requires
        m1.n == m2.n,
        0 <= j < m1.n,
        forall|v: int| 0 <= v < m1.n && v != j ==> m1.cap(u, v) == #[trigger] m2.cap(u, v),
    ensures
        row_sum(m2, u) == row_sum(m1, u) + m2.cap(u, j) - m1.cap(u, j),
{
    lemma_row_sum_to_update(m1, m2, u, j, m1.n as int);
}

/// Matrices that agree on row `u` have the same row sum there.
pub proof fn lemma_row_sum_same(m1: CapacityMatrix, m2: CapacityMatrix, u: int)
    requires
        m1.n == m2.n,
        forall|v: int| 0 <= v < m1.n ==> m1.cap(u, v) == #[trigger] m2.cap(u, v),
    ensures
        row_sum(m2, u) == row_sum(m1, u),
{
    if m1.n > 0 {
        lemma_row_sum_to_update(m1, m2, u, 0, m1.n as int);
    }
}

proof fn lemma_row_sum_to_bounds(m: CapacityMatrix, u: int, k: int)
    requires
        0 <= k <= m.n,
        forall|v: int| 0 <= v < m.n ==> #[trigger] m.cap(u, v) >= 0,
        forall|v: int| 0 <= v < m.n ==> #[trigger] m.cap(u, v) <= i32::MAX as int,
    ensures
        0 <= row_sum_to(m, u, k) <= k * (i32::MAX as int),
    decreases k,
{
    if k > 0 {
        lemma_row_sum_to_bounds(m, u, k - 1);
        assert((k - 1) * (i32::MAX as int) + i32::MAX as int == k * (i32::MAX as int))
            by (nonlinear_arith);
    }
}

/// A row of non-negative `i32` entries sums to something between `0` and
/// `n * i32::MAX`.
pub proof fn lemma_row_sum_bounds(m: CapacityMatrix, u: int)
    requires
        forall|v: int| 0 <= v < m.n ==> #[trigger] m.cap(u, v) >= 0,
        forall|v: int| 0 <= v < m.n ==> #[trigger] m.cap(u, v) <= i32::MAX as int,
    ensures
        0 <= row_sum(m, u) <= m.n * (i32::MAX as int),
{
    lemma_row_sum_to_bounds(m, u, m.n as int);
}

/// Every residual edge leaving a node of `s` lands in `s`.
pub open spec fn node_closed_in(
    g: Seq<Vec<usize>>,
    m: CapacityMatrix,
    s: Set<int>,
    u: int,
) -> bool {
    forall|j: int|
        0 <= j < g[u]@.len() && m.cap(u, (#[trigger] g[u]@[j]) as int) > 0
            ==> s.contains(g[u]@[j] as int)
}

/// `s` is closed under residual edges.
pub open spec fn closed_set(g: Seq<Vec<usize>>, m: CapacityMatrix, s: Set<int>) -> bool {
    forall|u: int| 0 <= u < g.len() && #[trigger] s.contains(u) ==> node_closed_in(g, m, s, u)
}

/// A residual path that starts inside a closed set ends inside it.
pub proof fn lemma_path_stays_in_closed(
    g: Seq<Vec<usize>>,
    m: CapacityMatrix,
    s: Set<int>,
    p: Seq<int>,
    st: int,
    t: int,
)
    requires
        closed_set(g, m, s),
        is_res_path(g, m, p, st, t),
        s.contains(st),
    ensures
        s.contains(t),
    decreases p.len(),
{
    if p.len() == 1 {
    } else {
        assert(res_edge(g, m, p[0], p[1]));
        let j = choose|j: int| 0 <= j < g[p[0]]@.len() && (#[trigger] g[p[0]]@[j]) as int == p[1];
        assert(node_closed_in(g, m, s, p[0]));
        assert(s.contains(p[1]));
        let p2 = p.subrange(1, p.len() as int);
        assert(p2[p2.len() - 1] == t);
        assert forall|i: int| 0 <= i < p2.len() - 1
            implies res_edge(g, m, #[trigger] p2[i], p2[i + 1]) by {
            assert(p2[i] == p[i + 1]);
            assert(p2[i + 1] == p[i + 2]);
        }
        lemma_path_stays_in_closed(g, m, s, p2, p[1], t);
    }
}

/// From a closed set holding `st` but not `t`: no residual path joins them.
pub proof fn lemma_unreachable_from_closed(
    g: Seq<Vec<usize>>,
    m: CapacityMatrix,
    s: Set<int>,
    st: int,
    t: int,
)
    requires
        closed_set(g, m, s),
        s.contains(st),
        !s.contains(t),
    ensures
        !reachable(g, m, st, t),
{
    if reachable(g, m, st, t) {
        let p = choose|p: Seq<int>| is_res_path(g, m, p, st, t);
        lemma_path_stays_in_closed(g, m, s, p, st, t);
    }
}

/// Reachability extends across one residual edge.
pub proof fn lemma_reachable_step(
    g: Seq<Vec<usize>>,
    m: CapacityMatrix,
    st: int,
    u: int,
    v: int,
)
    requires
        reachable(g, m, st, u),
        res_edge(g, m, u, v),
        0 <= v < g.len(),
    ensures
        reachable(g, m, st, v),
{
    let p = choose|p: Seq<int>| is_res_path(g, m, p, st, u);
    let p2 = p.push(v);
    assert forall|i: int| 0 <= i < p2.len() - 1
        implies res_edge(g, m, #[trigger] p2[i], p2[i + 1]) by {
        if i < p.len() - 1 {
            assert(p2[i] == p[i]);
            assert(p2[i + 1] == p[i + 1]);
        } else {
            assert(p2[i] == u);
            assert(p2[i + 1] == v);
        }
    }
    assert(is_res_path(g, m, p2, st, v));
}

} // verus!

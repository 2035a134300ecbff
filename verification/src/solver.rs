//! The max-flow solver: repeated breadth-first augmenting-path search over a
//! residual network, followed by a reachability pass that extracts the source
//! side of the minimum cut.

use vstd::prelude::*;
use vstd::set_lib::{set_int_range, lemma_int_range, lemma_len_subset};
use crate::matrix::CapacityMatrix;
use crate::model::{
    graph_wf, adj, res_edge, is_res_path, reachable, nonneg, pair_sums_bounded,
    bfs_tree_path, aug_path, on_path, on_path_from, node_closed_in,
    lemma_unreachable_from_closed, row_sum, lemma_row_sum_update, lemma_row_sum_same,
    lemma_row_sum_bounds,
};
use crate::reach::reachable_mask;

verus! {

/// Nodes marked visited by a parent array (`-1` means unvisited).
pub open spec fn visited_set(parent: Seq<i32>) -> Set<int> {
    Set::new(|v: int| 0 <= v < parent.len() && parent[v] != -1)
}

/// The facts about the immutable search inputs that every loop needs.
spec fn bfs_ctx(g: Seq<Vec<usize>>, m: CapacityMatrix, n: int, source: int, sink: int) -> bool {
    &&& m.wf()
    &&& nonneg(m)
    &&& graph_wf(g, n)
    &&& n == m.n as int
    &&& n <= i32::MAX as int
    &&& 0 <= source < n
    &&& 0 <= sink < n
    &&& source != sink
}

/// The first `upto` neighbours of `u` have been scanned: any one of them
/// with residual capacity left is already visited.
spec fn scan_closed(
    g: Seq<Vec<usize>>,
    m: CapacityMatrix,
    parent: Seq<i32>,
    u: int,
    upto: int,
) -> bool {
    forall|jj: int|
        0 <= jj < upto && m.cap(u, (#[trigger] g[u]@[jj]) as int) != 0
            ==> parent[g[u]@[jj] as int] != -1i32
}

/// The first `upto` dequeued nodes have had their whole adjacency list
/// scanned.
#[verifier::opaque]
spec fn processed_closed(
    g: Seq<Vec<usize>>,
    m: CapacityMatrix,
    parent: Seq<i32>,
    q: Seq<(usize, i32)>,
    upto: int,
) -> bool {
    forall|k: int| #![trigger q[k]] 0 <= k < upto
        ==> scan_closed(g, m, parent, q[k].0 as int, g[q[k].0 as int]@.len() as int)
}

/// The bottleneck `f` of a recorded path is attained: either the path is the
/// source alone (no hops, `f` is the infinite seed), or some hop has exactly
/// `f` residual capacity.
spec fn tight_bottleneck(m: CapacityMatrix, p: Seq<int>, f: i32) -> bool {
    ||| (f == i32::MAX && p.len() == 1)
    ||| exists|i: int| 0 <= i < p.len() - 1 && #[trigger] m.cap(p[i], p[i + 1]) == f as int
}

/// What holds of one queued node `v` with bottleneck `f`: it was discovered
/// along a recorded simple path from the source that can carry `f` units and
/// no more.
#[verifier::opaque]
spec fn queue_entry_ok(
    g: Seq<Vec<usize>>,
    m: CapacityMatrix,
    parent: Seq<i32>,
    paths: Map<int, Seq<int>>,
    source: int,
    sink: int,
    v: usize,
    f: i32,
) -> bool {
    &&& (v as int) < parent.len()
    &&& v as int != sink
    &&& f >= 1
    &&& paths.contains_key(v as int)
    &&& bfs_tree_path(g, m, parent, paths[v as int], source, v as int, f as int)
    &&& tight_bottleneck(m, paths[v as int], f)
}

/// Everything the search maintains about the queue: nodes in range, visited,
/// pairwise distinct (so the queue cannot outgrow the node count), each with
/// a recorded path, and every visited node somewhere in the queue.
#[verifier::opaque]
spec fn queue_inv(
    g: Seq<Vec<usize>>,
    m: CapacityMatrix,
    parent: Seq<i32>,
    paths: Map<int, Seq<int>>,
    q: Seq<(usize, i32)>,
    n: int,
    source: int,
    sink: int,
) -> bool {
    &&& q.len() <= n
    &&& forall|k: int| 0 <= k < q.len()
        ==> ((#[trigger] q[k]).0 as int) < n && parent[q[k].0 as int] != -1i32
    &&& forall|k1: int, k2: int| #![trigger q[k1], q[k2]]
        0 <= k1 < k2 < q.len() ==> q[k1].0 != q[k2].0
    &&& forall|k: int| #![trigger q[k]] 0 <= k < q.len()
        ==> queue_entry_ok(g, m, parent, paths, source, sink, q[k].0, q[k].1)
    &&& forall|v: int| 0 <= v < n && #[trigger] parent[v] != -1i32
        ==> exists|k: int| 0 <= k < q.len() && (#[trigger] q[k]).0 as int == v
}

/// Opens one queue entry.
proof fn lemma_entry_fields(
    g: Seq<Vec<usize>>,
    m: CapacityMatrix,
    parent: Seq<i32>,
    paths: Map<int, Seq<int>>,
    source: int,
    sink: int,
    v: usize,
    f: i32,
)
    requires
        queue_entry_ok(g, m, parent, paths, source, sink, v, f),
    ensures
        (v as int) < parent.len(),
        v as int != sink,
        f >= 1,
        paths.contains_key(v as int),
        bfs_tree_path(g, m, parent, paths[v as int], source, v as int, f as int),
        tight_bottleneck(m, paths[v as int], f),
{
    reveal(queue_entry_ok);
}

/// Packs one queue entry.
proof fn lemma_entry_intro(
    g: Seq<Vec<usize>>,
    m: CapacityMatrix,
    parent: Seq<i32>,
    paths: Map<int, Seq<int>>,
    source: int,
    sink: int,
    v: usize,
    f: i32,
)
    requires
        (v as int) < parent.len(),
        v as int != sink,
        f >= 1,
        paths.contains_key(v as int),
        bfs_tree_path(g, m, parent, paths[v as int], source, v as int, f as int),
        tight_bottleneck(m, paths[v as int], f),
    ensures
        queue_entry_ok(g, m, parent, paths, source, sink, v, f),
{
    reveal(queue_entry_ok);
}

/// Opens the queue invariant at one position.
proof fn lemma_queue_inv_entry(
    g: Seq<Vec<usize>>,
    m: CapacityMatrix,
    parent: Seq<i32>,
    paths: Map<int, Seq<int>>,
    q: Seq<(usize, i32)>,
    n: int,
    source: int,
    sink: int,
    k: int,
)
    requires
        queue_inv(g, m, parent, paths, q, n, source, sink),
        0 <= k < q.len(),
    ensures
        (q[k].0 as int) < n,
        q[k].0 as int != sink,
        q[k].1 >= 1,
        parent[q[k].0 as int] != -1i32,
        paths.contains_key(q[k].0 as int),
        bfs_tree_path(g, m, parent, paths[q[k].0 as int], source, q[k].0 as int,
            q[k].1 as int),
        tight_bottleneck(m, paths[q[k].0 as int], q[k].1),
        q.len() <= n,
{
    reveal(queue_inv);
    lemma_entry_fields(g, m, parent, paths, source, sink, q[k].0, q[k].1);
}

/// The queue invariant as the search starts: the source alone, with the
/// one-node path.
#[verifier::rlimit(100)]
proof fn lemma_queue_inv_init(
    g: Seq<Vec<usize>>,
    m: CapacityMatrix,
    parent: Seq<i32>,
    paths: Map<int, Seq<int>>,
    q: Seq<(usize, i32)>,
    n: int,
    source: int,
    sink: int,
    sourceu: usize,
)
    requires
        bfs_ctx(g, m, n, source, sink),
        sourceu as int == source,
        parent.len() == n,
        parent[source] == -2i32,
        forall|v: int| 0 <= v < n && v != source ==> #[trigger] parent[v] == -1i32,
        q.len() == 1,
        q[0] == (sourceu, i32::MAX),
        paths == Map::<int, Seq<int>>::empty().insert(source, seq![source]),
    ensures
        queue_inv(g, m, parent, paths, q, n, source, sink),
{
    reveal(queue_inv);
    let p0 = seq![source];
    assert(p0[p0.len() - 1] == source);
    assert(bfs_tree_path(g, m, parent, p0, source, source, i32::MAX as int));
    lemma_entry_intro(g, m, parent, paths, source, sink, sourceu, i32::MAX);
    assert forall|v: int| 0 <= v < n && #[trigger] parent[v] != -1i32
        implies exists|k: int| 0 <= k < q.len() && (#[trigger] q[k]).0 as int == v by {
        assert(v == source);
        assert((q[0]).0 as int == v);
    }
}

/// A recorded path is undisturbed when a node it cannot pass through is
/// marked visited.
proof fn lemma_tree_path_stable(
    g: Seq<Vec<usize>>,
    m: CapacityMatrix,
    parent0: Seq<i32>,
    parent1: Seq<i32>,
    p: Seq<int>,
    source: int,
    v: int,
    f: int,
    nxt: int,
    newp: i32,
)
    requires
        bfs_tree_path(g, m, parent0, p, source, v, f),
        g.len() == parent0.len(),
        0 <= nxt < parent0.len(),
        parent0[nxt] == -1i32,
        parent1 == parent0.update(nxt, newp),
    ensures
        bfs_tree_path(g, m, parent1, p, source, v, f),
{
    assert forall|ii: int| 0 <= ii < p.len()
        implies #[trigger] p[ii] != nxt && parent1[p[ii]] == parent0[p[ii]] by {
        assert(parent0[p[ii]] != -1i32);
    }
}

/// Extending a recorded path by one residual edge onto a fresh node yields a
/// recorded path for that node, with the tightened bottleneck.
proof fn lemma_extend_path(
    g: Seq<Vec<usize>>,
    m: CapacityMatrix,
    parent0: Seq<i32>,
    parent1: Seq<i32>,
    pcur: Seq<int>,
    source: int,
    cur: int,
    nxt: int,
    newp: i32,
    fl: int,
    c: int,
    nf: int,
    j: int,
)
    requires
        bfs_tree_path(g, m, parent0, pcur, source, cur, fl),
        0 <= nxt < g.len(),
        g.len() == parent0.len(),
        parent0[nxt] == -1i32,
        newp as int == cur,
        newp >= 0,
        parent1 == parent0.update(nxt, newp),
        0 <= cur < g.len(),
        0 <= j < g[cur]@.len(),
        g[cur]@[j] as int == nxt,
        m.cap(cur, nxt) == c,
        c >= nf,
        fl >= nf,
    ensures
        bfs_tree_path(g, m, parent1, pcur.push(nxt), source, nxt, nf),
{
    let pnew = pcur.push(nxt);
    assert(pnew[pnew.len() - 1] == nxt);
    assert forall|ii: int| 0 <= ii < pcur.len()
        implies #[trigger] pcur[ii] != nxt && parent1[pcur[ii]] == parent0[pcur[ii]] by {
        assert(parent0[pcur[ii]] != -1i32);
    }
    assert forall|ii: int| 0 <= ii < pnew.len()
        implies 0 <= #[trigger] pnew[ii] < g.len() && parent1[pnew[ii]] != -1i32 by {
        if ii < pcur.len() {
            assert(pnew[ii] == pcur[ii]);
        } else {
            assert(pnew[ii] == nxt);
            assert(parent1[nxt] == newp);
        }
    }
    assert forall|ii: int, kk: int| #![trigger pnew[ii], pnew[kk]]
        0 <= ii < kk < pnew.len() implies pnew[ii] != pnew[kk] by {
        if kk < pcur.len() {
            assert(pnew[ii] == pcur[ii] && pnew[kk] == pcur[kk]);
        } else {
            assert(pnew[kk] == nxt);
            assert(pnew[ii] == pcur[ii]);
        }
    }
    assert forall|ii: int| 1 <= ii < pnew.len()
        implies parent1[#[trigger] pnew[ii]] as int == pnew[ii - 1] by {
        if ii < pcur.len() {
            assert(pnew[ii] == pcur[ii] && pnew[ii - 1] == pcur[ii - 1]);
        } else {
            assert(pnew[ii] == nxt);
            assert(pnew[ii - 1] == pcur[pcur.len() - 1]);
        }
    }
    assert(adj(g, cur, nxt)) by {
        assert(0 <= j < g[cur]@.len() && g[cur]@[j] as int == nxt);
    }
    assert forall|ii: int| 0 <= ii < pnew.len() - 1
        implies adj(g, #[trigger] pnew[ii], pnew[ii + 1])
            && m.cap(pnew[ii], pnew[ii + 1]) >= nf by {
        if ii < pcur.len() - 1 {
            assert(pnew[ii] == pcur[ii] && pnew[ii + 1] == pcur[ii + 1]);
            assert(m.cap(pcur[ii], pcur[ii + 1]) >= fl);
        } else {
            assert(pnew[ii] == cur && pnew[ii + 1] == nxt);
        }
    }
}

/// An augmenting path carries positive residual capacity on every hop, so it
/// is in particular a residual path.
proof fn lemma_aug_path_is_res_path(
    g: Seq<Vec<usize>>,
    m: CapacityMatrix,
    parent: Seq<i32>,
    p: Seq<int>,
    s: int,
    t: int,
    f: int,
)
    requires
        aug_path(g, m, parent, p, s, t, f),
    ensures
        is_res_path(g, m, p, s, t),
{
    assert forall|ii: int| 0 <= ii < p.len() - 1
        implies res_edge(g, m, #[trigger] p[ii], p[ii + 1]) by {
        assert(m.cap(p[ii], p[ii + 1]) >= f);
    }
}

/// A queue of pairwise distinct nodes below `n` has at most `n` entries.
proof fn lemma_queue_bound(q: Seq<(usize, i32)>, n: int)
    requires
        n >= 0,
        forall|k: int| 0 <= k < q.len() ==> ((#[trigger] q[k]).0 as int) < n,
        forall|k1: int, k2: int| #![trigger q[k1], q[k2]]
            0 <= k1 < k2 < q.len() ==> q[k1].0 != q[k2].0,
    ensures
        q.len() <= n,
{
    let nodes = Seq::new(q.len(), |k: int| q[k].0 as int);
    assert forall|k1: int, k2: int|
        0 <= k1 < nodes.len() && 0 <= k2 < nodes.len() && k1 != k2
        implies nodes[k1] != nodes[k2] by {
        if k1 < k2 {
            assert(q[k1].0 != q[k2].0);
        } else {
            assert(q[k2].0 != q[k1].0);
        }
    }
    assert(nodes.no_duplicates());
    nodes.unique_seq_to_set();
    assert forall|x: int| nodes.to_set().contains(x)
        implies set_int_range(0, n).contains(x) by {
        let k = choose|k: int| 0 <= k < nodes.len() && nodes[k] == x;
        assert(q[k].0 as int == x);
    }
    lemma_int_range(0, n);
    lemma_len_subset(nodes.to_set(), set_int_range(0, n));
}

/// One discovery step: the scan at `cur` finds the unvisited node `nxt`
/// through an edge with residual capacity `c`, marks it, and records the
/// extended path. Afterwards either `nxt` is the sink and the recorded path
/// is an augmenting path, or the queue grown by `nxt` satisfies the queue
/// invariant again.
#[verifier::rlimit(100)]
proof fn lemma_discover(
    g: Seq<Vec<usize>>,
    m: CapacityMatrix,
    parent0: Seq<i32>,
    parent1: Seq<i32>,
    paths0: Map<int, Seq<int>>,
    paths1: Map<int, Seq<int>>,
    q0: Seq<(usize, i32)>,
    qi: int,
    cur: usize,
    fl: i32,
    nxt: usize,
    newp: i32,
    c: i32,
    nf: i32,
    j: int,
    n: int,
    source: int,
    sink: int,
)
    requires
        bfs_ctx(g, m, n, source, sink),
        queue_inv(g, m, parent0, paths0, q0, n, source, sink),
        parent0.len() == n,
        parent1.len() == n,
        0 <= qi < q0.len(),
        q0[qi].0 == cur,
        q0[qi].1 == fl,
        (nxt as int) < n,
        parent0[nxt as int] == -1i32,
        newp as int == cur as int,
        newp >= 0,
        parent1 == parent0.update(nxt as int, newp),
        0 <= j < g[cur as int]@.len(),
        g[cur as int]@[j] as int == nxt as int,
        m.cap(cur as int, nxt as int) == c as int,
        c != 0,
        nf == (if c < fl { c } else { fl }),
        paths1 == paths0.insert(nxt as int, paths0[cur as int].push(nxt as int)),
    ensures
        nf >= 1,
        nxt as int == sink ==> aug_path(g, m, parent1, paths1[nxt as int], source, sink,
            nf as int),
        nxt as int == sink ==> reachable(g, m, source, sink),
        nxt as int != sink ==> queue_inv(g, m, parent1, paths1, q0.push((nxt, nf)), n,
            source, sink),
        q0.push((nxt, nf)).len() <= n,
{
    reveal(queue_inv);
    lemma_queue_inv_entry(g, m, parent0, paths0, q0, n, source, sink, qi);
    let pcur = paths0[cur as int];
    let pnew = pcur.push(nxt as int);
    assert(c as int >= 1);
    assert(nf >= 1);

    lemma_extend_path(g, m, parent0, parent1, pcur, source, cur as int, nxt as int, newp,
        fl as int, c as int, nf as int, j);
    assert(paths1[nxt as int] == pnew);

    // The tightened bottleneck is attained on the extended path.
    assert(tight_bottleneck(m, pnew, nf)) by {
        if c < fl {
            assert(pnew[pcur.len() - 1] == cur as int);
            assert(pnew[pcur.len() as int] == nxt as int);
            assert(m.cap(pnew[pcur.len() - 1], pnew[pcur.len() as int]) == nf as int);
        } else {
            if pcur.len() == 1 {
                assert(fl == i32::MAX);
                assert(c == i32::MAX);
                assert(pnew[0] == cur as int);
                assert(pnew[1] == nxt as int);
                assert(m.cap(pnew[0], pnew[1]) == nf as int);
            } else {
                let i = choose|i: int|
                    0 <= i < pcur.len() - 1
                        && #[trigger] m.cap(pcur[i], pcur[i + 1]) == fl as int;
                assert(pnew[i] == pcur[i] && pnew[i + 1] == pcur[i + 1]);
                assert(m.cap(pnew[i], pnew[i + 1]) == nf as int);
            }
        }
    }

    // Existing entries are untouched.
    assert forall|k: int| #![trigger q0[k]] 0 <= k < q0.len()
        implies queue_entry_ok(g, m, parent1, paths1, source, sink, q0[k].0, q0[k].1) by {
        lemma_entry_fields(g, m, parent0, paths0, source, sink, q0[k].0, q0[k].1);
        let p = paths0[q0[k].0 as int];
        assert(q0[k].0 as int != nxt as int);
        assert(paths1[q0[k].0 as int] == p);
        lemma_tree_path_stable(g, m, parent0, parent1, p, source, q0[k].0 as int,
            q0[k].1 as int, nxt as int, newp);
        lemma_entry_intro(g, m, parent1, paths1, source, sink, q0[k].0, q0[k].1);
    }

    if nxt as int == sink {
        assert(exists|i: int|
            0 <= i < pnew.len() - 1 && #[trigger] m.cap(pnew[i], pnew[i + 1]) == nf as int);
        assert(aug_path(g, m, parent1, pnew, source, sink, nf as int));
        lemma_aug_path_is_res_path(g, m, parent1, pnew, source, sink, nf as int);
        assert(reachable(g, m, source, sink));
        lemma_queue_bound(q0.push((nxt, nf)), n);
    } else {
        let q1 = q0.push((nxt, nf));
        lemma_entry_intro(g, m, parent1, paths1, source, sink, nxt, nf);
        assert forall|k: int| 0 <= k < q1.len()
            implies ((#[trigger] q1[k]).0 as int) < n
                && parent1[q1[k].0 as int] != -1i32 by {
            if k < q0.len() {
                assert(q1[k] == q0[k]);
                assert(parent0[q0[k].0 as int] != -1i32);
            } else {
                assert(q1[k] == (nxt, nf));
                assert(parent1[nxt as int] == newp);
            }
        }
        assert forall|k1: int, k2: int| #![trigger q1[k1], q1[k2]]
            0 <= k1 < k2 < q1.len() implies q1[k1].0 != q1[k2].0 by {
            if k2 < q0.len() {
                assert(q1[k1] == q0[k1] && q1[k2] == q0[k2]);
            } else {
                assert(q1[k2] == (nxt, nf));
                assert(q1[k1] == q0[k1]);
                assert(parent0[q0[k1].0 as int] != -1i32);
            }
        }
        lemma_queue_bound(q1, n);
        assert forall|k: int| #![trigger q1[k]] 0 <= k < q1.len()
            implies queue_entry_ok(g, m, parent1, paths1, source, sink, q1[k].0,
                q1[k].1) by {
            if k < q0.len() {
                assert(q1[k] == q0[k]);
            } else {
                assert(q1[k] == (nxt, nf));
            }
        }
        assert forall|v: int| 0 <= v < n && #[trigger] parent1[v] != -1i32
            implies exists|k: int| 0 <= k < q1.len()
                && (#[trigger] q1[k]).0 as int == v by {
            if v == nxt as int {
                assert((q1[q1.len() - 1]).0 as int == v);
            } else {
                assert(parent0[v] != -1i32);
                let k = choose|k: int| 0 <= k < q0.len()
                    && (#[trigger] q0[k]).0 as int == v;
                assert((q1[k]).0 as int == v);
            }
        }
    }
}

/// A neighbour scan survives marking one more node visited.
proof fn lemma_scan_monotone(
    g: Seq<Vec<usize>>,
    m: CapacityMatrix,
    parent0: Seq<i32>,
    parent1: Seq<i32>,
    u: int,
    upto: int,
    n: int,
    nxt: int,
    newp: i32,
)
    requires
        graph_wf(g, n),
        parent0.len() == n,
        0 <= u < n,
        upto <= g[u]@.len(),
        parent1 == parent0.update(nxt, newp),
        0 <= nxt < n,
        newp != -1i32,
        scan_closed(g, m, parent0, u, upto),
    ensures
        scan_closed(g, m, parent1, u, upto),
{
    assert forall|jj: int|
        0 <= jj < upto && m.cap(u, (#[trigger] g[u]@[jj]) as int) != 0
        implies parent1[g[u]@[jj] as int] != -1i32 by {
        let t = g[u]@[jj] as int;
        assert(parent0[t] != -1i32);
        if t == nxt {
            assert(parent1[t] == newp);
        } else {
            assert(parent1[t] == parent0[t]);
        }
    }
}

/// One more neighbour joins a finished scan prefix when it is either
/// capacity-free or already visited.
proof fn lemma_scan_step(
    g: Seq<Vec<usize>>,
    m: CapacityMatrix,
    parent: Seq<i32>,
    u: int,
    j: int,
    nxt: int,
)
    requires
        scan_closed(g, m, parent, u, j),
        0 <= j < g[u]@.len(),
        g[u]@[j] as int == nxt,
        m.cap(u, nxt) == 0 || parent[nxt] != -1i32,
    ensures
        scan_closed(g, m, parent, u, j + 1),
{
    assert forall|jj: int|
        0 <= jj < j + 1 && m.cap(u, (#[trigger] g[u]@[jj]) as int) != 0
        implies parent[g[u]@[jj] as int] != -1i32 by {
        if jj == j {
            assert(g[u]@[jj] as int == nxt);
        }
    }
}

/// All fully scanned nodes stay fully scanned when one more node is marked
/// visited and enqueued.
proof fn lemma_processed_stable(
    g: Seq<Vec<usize>>,
    m: CapacityMatrix,
    parent0: Seq<i32>,
    parent1: Seq<i32>,
    paths0: Map<int, Seq<int>>,
    q0: Seq<(usize, i32)>,
    q1: Seq<(usize, i32)>,
    upto: int,
    n: int,
    nxt: int,
    newp: i32,
    source: int,
    sink: int,
)
    requires
        processed_closed(g, m, parent0, q0, upto),
        queue_inv(g, m, parent0, paths0, q0, n, source, sink),
        graph_wf(g, n),
        parent0.len() == n,
        parent1 == parent0.update(nxt, newp),
        0 <= nxt < n,
        newp != -1i32,
        0 <= upto <= q0.len(),
        q1.len() >= q0.len(),
        forall|k: int| 0 <= k < q0.len() ==> q1[k] == #[trigger] q0[k],
    ensures
        processed_closed(g, m, parent1, q1, upto),
{
    reveal(processed_closed);
    reveal(queue_inv);
    assert forall|k: int| #![trigger q1[k]] 0 <= k < upto
        implies scan_closed(g, m, parent1, q1[k].0 as int,
            g[q1[k].0 as int]@.len() as int) by {
        assert(q1[k] == q0[k]);
        assert(scan_closed(g, m, parent0, q0[k].0 as int, g[q0[k].0 as int]@.len() as int));
        assert((q0[k].0 as int) < n);
        lemma_scan_monotone(g, m, parent0, parent1, q0[k].0 as int,
            g[q0[k].0 as int]@.len() as int, n, nxt, newp);
    }
}

/// A fully scanned node at the queue head extends the processed prefix.
proof fn lemma_processed_extend(
    g: Seq<Vec<usize>>,
    m: CapacityMatrix,
    parent: Seq<i32>,
    q: Seq<(usize, i32)>,
    upto: int,
)
    requires
        processed_closed(g, m, parent, q, upto),
        0 <= upto < q.len(),
        scan_closed(g, m, parent, q[upto].0 as int, g[q[upto].0 as int]@.len() as int),
    ensures
        processed_closed(g, m, parent, q, upto + 1),
{
    reveal(processed_closed);
}

/// An empty processed prefix.
proof fn lemma_processed_empty(
    g: Seq<Vec<usize>>,
    m: CapacityMatrix,
    parent: Seq<i32>,
    q: Seq<(usize, i32)>,
)
    ensures
        processed_closed(g, m, parent, q, 0),
{
    reveal(processed_closed);
}

/// When the queue is exhausted, the visited nodes are closed under residual
/// edges, so the sink, still unvisited, is unreachable.
proof fn lemma_no_aug_path(
    g: Seq<Vec<usize>>,
    m: CapacityMatrix,
    parent: Seq<i32>,
    paths: Map<int, Seq<int>>,
    q: Seq<(usize, i32)>,
    n: int,
    source: int,
    sink: int,
)
    requires
        processed_closed(g, m, parent, q, q.len() as int),
        queue_inv(g, m, parent, paths, q, n, source, sink),
        graph_wf(g, n),
        parent.len() == n,
        0 <= source < n,
        0 <= sink < n,
        parent[source] != -1i32,
        parent[sink] == -1i32,
    ensures
        !reachable(g, m, source, sink),
{
    reveal(processed_closed);
    reveal(queue_inv);
    let s = visited_set(parent);
    assert forall|u: int| 0 <= u < g.len() && #[trigger] s.contains(u)
        implies node_closed_in(g, m, s, u) by {
        assert(parent[u] != -1i32);
        let k = choose|k: int| 0 <= k < q.len() && (#[trigger] q[k]).0 as int == u;
        assert(scan_closed(g, m, parent, u, g[u]@.len() as int));
        assert forall|j: int|
            0 <= j < g[u]@.len() && m.cap(u, (#[trigger] g[u]@[j]) as int) != 0
            implies s.contains(g[u]@[j] as int) by {
            assert(parent[g[u]@[j] as int] != -1i32);
            assert(g[u]@[j] < n);
        }
    }
    assert(s.contains(source));
    assert(!s.contains(sink));
    lemma_unreachable_from_closed(g, m, s, source, sink);
}

/// One breadth-first search for an augmenting path.
///
/// Resets `parent` (`-1` unvisited, `-2` marks the source as root), then
/// searches the residual graph in first-in-first-out order, so the path found
/// is a shortest one by hop count. Returns the bottleneck capacity of the
/// path recorded in `parent`, or `0` exactly when the sink is unreachable.
#[verifier::rlimit(100)]
pub fn bfs(
    source_node: usize,
    sink_node: usize,
    parent: &mut Vec<i32>,
    graph: &Vec<Vec<usize>>,
    capacity: &CapacityMatrix,
) -> (flow: i32)
    requires
        capacity.wf(),
        nonneg(*capacity),
        graph_wf(graph@, capacity.n as int),
        old(parent)@.len() == capacity.n,
        capacity.n as int <= i32::MAX as int,
        source_node < capacity.n,
        sink_node < capacity.n,
        source_node != sink_node,
    ensures
        final(parent)@.len() == capacity.n,
        final(parent)@[source_node as int] == -2i32,
        forall|v: int|
            0 <= v < capacity.n && #[trigger] final(parent)@[v] >= 0
                ==> 0 <= final(parent)@[v] < capacity.n
                    && adj(graph@, final(parent)@[v] as int, v)
                    && capacity.cap(final(parent)@[v] as int, v) > 0,
        flow >= 0,
        flow > 0 ==> exists|p: Seq<int>|
            aug_path(
                graph@,
                *capacity,
                final(parent)@,
                p,
                source_node as int,
                sink_node as int,
                flow as int,
            ),
        flow > 0 ==> reachable(graph@, *capacity, source_node as int, sink_node as int),
        flow == 0 ==> !reachable(graph@, *capacity, source_node as int, sink_node as int),
{
    let ghost g = graph@;
    let ghost m = *capacity;
    let n = capacity.n;

    let mut i: usize = 0;
    while i < n
        invariant
            i <= n,
            parent@.len() == n,
            forall|k: int| 0 <= k < i ==> parent@[k] == -1i32,
        decreases n - i,
    {
        parent[i] = -1;
        i = i + 1;
    }
    parent[source_node] = -2;

    let mut q: Vec<(usize, i32)> = Vec::new();
    q.push((source_node, i32::MAX));
    let mut qi: usize = 0;

    let ghost mut paths: Map<int, Seq<int>> = Map::<int, Seq<int>>::empty().insert(
        source_node as int,
        seq![source_node as int],
    );

    proof {
        lemma_queue_inv_init(g, m, parent@, paths, q@, n as int, source_node as int,
            sink_node as int, source_node);
        lemma_processed_empty(g, m, parent@, q@);
        lemma_queue_inv_entry(g, m, parent@, paths, q@, n as int, source_node as int,
            sink_node as int, 0);
    }

    while qi < q.len()
        invariant
            bfs_ctx(g, m, n as int, source_node as int, sink_node as int),
            g == graph@,
            m == *capacity,
            n == capacity.n,
            parent@.len() == n,
            parent@[source_node as int] == -2i32,
            parent@[sink_node as int] == -1i32,
            forall|v: int| 0 <= v < n && #[trigger] parent@[v] >= 0
                ==> 0 <= parent@[v] < n && adj(g, parent@[v] as int, v)
                    && m.cap(parent@[v] as int, v) > 0,
            qi <= q@.len(),
            q@.len() <= n,
            queue_inv(g, m, parent@, paths, q@, n as int, source_node as int,
                sink_node as int),
            processed_closed(g, m, parent@, q@, qi as int),
        decreases n - qi,
    {
        let cur = q[qi].0;
        let fl = q[qi].1;
        proof {
            lemma_queue_inv_entry(g, m, parent@, paths, q@, n as int, source_node as int,
                sink_node as int, qi as int);
        }

        let deg = graph[cur].len();
        let mut j: usize = 0;
        while j < deg
            invariant
                bfs_ctx(g, m, n as int, source_node as int, sink_node as int),
                g == graph@,
                m == *capacity,
                n == capacity.n,
                cur < n,
                fl >= 1,
                deg == graph@[cur as int]@.len(),
                j <= deg,
                parent@.len() == n,
                parent@[source_node as int] == -2i32,
                parent@[sink_node as int] == -1i32,
                forall|v: int| 0 <= v < n && #[trigger] parent@[v] >= 0
                    ==> 0 <= parent@[v] < n && adj(g, parent@[v] as int, v)
                        && m.cap(parent@[v] as int, v) > 0,
                qi < q@.len(),
                q@.len() <= n,
                q@[qi as int].0 == cur,
                q@[qi as int].1 == fl,
                queue_inv(g, m, parent@, paths, q@, n as int, source_node as int,
                    sink_node as int),
                processed_closed(g, m, parent@, q@, qi as int),
                scan_closed(g, m, parent@, cur as int, j as int),
            decreases deg - j,
        {
            let nxt = graph[cur][j];
            let c = capacity.get(cur, nxt);
            if parent[nxt] == -1 && c != 0 {
                let ghost parent0 = parent@;
                let ghost paths0 = paths;
                let ghost q0 = q@;
                parent[nxt] = cur as i32;
                let nf = if c < fl { c } else { fl };
                proof {
                    paths = paths0.insert(nxt as int, paths0[cur as int].push(nxt as int));
                    assert(parent@ =~= parent0.update(nxt as int, cur as i32));
                    lemma_discover(g, m, parent0, parent@, paths0, paths, q0, qi as int,
                        cur, fl, nxt, cur as i32, c, nf, j as int, n as int,
                        source_node as int, sink_node as int);
                    assert forall|v: int| 0 <= v < n && #[trigger] parent@[v] >= 0
                        implies 0 <= parent@[v] < n && adj(g, parent@[v] as int, v)
                            && m.cap(parent@[v] as int, v) > 0 by {
                        if v == nxt as int {
                            assert(parent@[v] == cur as i32);
                            assert(adj(g, cur as int, nxt as int)) by {
                                assert(0 <= j < g[cur as int]@.len()
                                    && g[cur as int]@[j as int] as int == nxt as int);
                            }
                            assert(m.cap(cur as int, nxt as int) == c as int);
                            assert(c > 0);
                        } else {
                            assert(parent@[v] == parent0[v]);
                        }
                    }
                }
                if nxt == sink_node {
                    return nf;
                }
                q.push((nxt, nf));
                proof {
                    lemma_processed_stable(g, m, parent0, parent@, paths0, q0, q@,
                        qi as int, n as int, nxt as int, cur as i32, source_node as int,
                        sink_node as int);
                    lemma_scan_monotone(g, m, parent0, parent@, cur as int, j as int,
                        n as int, nxt as int, cur as i32);
                    lemma_scan_step(g, m, parent@, cur as int, j as int, nxt as int);
                }
            } else {
                proof {
                    lemma_scan_step(g, m, parent@, cur as int, j as int, nxt as int);
                }
            }
            j = j + 1;
        }
        proof {
            lemma_processed_extend(g, m, parent@, q@, qi as int);
        }
        qi = qi + 1;
    }

    proof {
        lemma_no_aug_path(g, m, parent@, paths, q@, n as int, source_node as int,
            sink_node as int);
    }
    0
}

/// Two opposite entries change by `-f` and `+f`; every row sum shifts
/// accordingly.
proof fn lemma_row_step(
    ma: CapacityMatrix,
    mb: CapacityMatrix,
    mc: CapacityMatrix,
    a: int,
    b: int,
    f: int,
)
    requires
        ma.n == mb.n,
        mb.n == mc.n,
        0 <= a < ma.n,
        0 <= b < ma.n,
        a != b,
        forall|u: int, v: int| 0 <= u < ma.n && 0 <= v < ma.n
            ==> #[trigger] mb.cap(u, v) == (if u == a && v == b {
                ma.cap(a, b) - f
            } else {
                ma.cap(u, v)
            }),
        forall|u: int, v: int| 0 <= u < ma.n && 0 <= v < ma.n
            ==> #[trigger] mc.cap(u, v) == (if u == b && v == a {
                mb.cap(b, a) + f
            } else {
                mb.cap(u, v)
            }),
    ensures
        forall|w: int| 0 <= w < ma.n
            ==> row_sum(mc, w) == row_sum(ma, w) + (if w == a {
                -f
            } else if w == b {
                f
            } else {
                0int
            }),
{
    assert forall|w: int| 0 <= w < ma.n
        implies row_sum(mc, w) == row_sum(ma, w) + (if w == a {
            -f
        } else if w == b {
            f
        } else {
            0int
        }) by {
        if w == a {
            lemma_row_sum_update(ma, mb, a, b);
            lemma_row_sum_same(mb, mc, a);
        } else if w == b {
            lemma_row_sum_same(ma, mb, b);
            lemma_row_sum_update(mb, mc, b, a);
        } else {
            lemma_row_sum_same(ma, mb, w);
            lemma_row_sum_same(mb, mc, w);
        }
    }
}

/// One augmentation step settles the edge between positions `jj - 1` and
/// `jj` of the path: the matrix keeps every invariant, with the row-sum
/// deficit moving one hop closer to the source.
#[verifier::rlimit(100)]
proof fn lemma_augment_bookkeeping(
    m0: CapacityMatrix,
    ma: CapacityMatrix,
    mb: CapacityMatrix,
    mc: CapacityMatrix,
    g: Seq<Vec<usize>>,
    parent: Seq<i32>,
    p: Seq<int>,
    jj: int,
    flow: int,
    n: int,
    source: int,
    sink: int,
)
    requires
        m0.n == n,
        ma.n == n,
        mb.n == n,
        mc.n == n,
        nonneg(m0),
        pair_sums_bounded(m0),
        nonneg(ma),
        aug_path(g, m0, parent, p, source, sink, flow),
        g.len() == n,
        1 <= jj < p.len(),
        forall|ii: int| 0 <= ii < jj
            ==> ma.cap(#[trigger] p[ii], p[ii + 1]) == m0.cap(p[ii], p[ii + 1])
                && ma.cap(p[ii + 1], p[ii]) == m0.cap(p[ii + 1], p[ii]),
        forall|u: int, v: int|
            0 <= u < n && 0 <= v < n && !on_path_from(p, jj, u, v)
                && !on_path_from(p, jj, v, u)
                ==> #[trigger] ma.cap(u, v) == m0.cap(u, v),
        forall|u: int, v: int|
            0 <= u < n && 0 <= v < n
                ==> #[trigger] ma.cap(u, v) + ma.cap(v, u) == m0.cap(u, v) + m0.cap(v, u),
        forall|w: int| 0 <= w < n
            ==> row_sum(ma, w) == row_sum(m0, w) + (if jj < p.len() - 1 && w == p[jj] {
                -flow
            } else if jj < p.len() - 1 && w == p[p.len() - 1] {
                flow
            } else {
                0int
            }),
        forall|u: int, v: int| 0 <= u < n && 0 <= v < n
            ==> #[trigger] mb.cap(u, v) == (if u == p[jj - 1] && v == p[jj] {
                ma.cap(p[jj - 1], p[jj]) - flow
            } else {
                ma.cap(u, v)
            }),
        forall|u: int, v: int| 0 <= u < n && 0 <= v < n
            ==> #[trigger] mc.cap(u, v) == (if u == p[jj] && v == p[jj - 1] {
                mb.cap(p[jj], p[jj - 1]) + flow
            } else {
                mb.cap(u, v)
            }),
    ensures
        nonneg(mc),
        forall|ii: int| 0 <= ii < jj - 1
            ==> mc.cap(#[trigger] p[ii], p[ii + 1]) == m0.cap(p[ii], p[ii + 1])
                && mc.cap(p[ii + 1], p[ii]) == m0.cap(p[ii + 1], p[ii]),
        forall|u: int, v: int|
            0 <= u < n && 0 <= v < n && !on_path_from(p, jj - 1, u, v)
                && !on_path_from(p, jj - 1, v, u)
                ==> #[trigger] mc.cap(u, v) == m0.cap(u, v),
        forall|u: int, v: int|
            0 <= u < n && 0 <= v < n
                ==> #[trigger] mc.cap(u, v) + mc.cap(v, u) == m0.cap(u, v) + m0.cap(v, u),
        forall|w: int| 0 <= w < n
            ==> row_sum(mc, w) == row_sum(m0, w) + (if jj - 1 < p.len() - 1
                && w == p[jj - 1] {
                -flow
            } else if jj - 1 < p.len() - 1 && w == p[p.len() - 1] {
                flow
            } else {
                0int
            }),
{
    let len = p.len() as int;
    assert(p[jj - 1] != p[jj]);
    assert(ma.cap(p[jj - 1], p[jj]) == m0.cap(p[jj - 1], p[jj]));
    assert(m0.cap(p[jj - 1], p[jj]) >= flow);
    lemma_row_step(ma, mb, mc, p[jj - 1], p[jj], flow);
    assert(p[jj - 1] != p[len - 1]);
    assert forall|w: int| 0 <= w < n
        implies row_sum(mc, w) == row_sum(m0, w) + (if jj - 1 < len - 1 && w == p[jj - 1] {
            -flow
        } else if jj - 1 < len - 1 && w == p[len - 1] {
            flow
        } else {
            0int
        }) by {
        if w == p[jj - 1] {
        } else if w == p[jj] {
            if jj == len - 1 {
            } else {
                assert(p[jj] != p[len - 1]);
            }
        }
    }
    assert forall|ii: int| 0 <= ii < jj - 1
        implies mc.cap(#[trigger] p[ii], p[ii + 1]) == m0.cap(p[ii], p[ii + 1])
            && mc.cap(p[ii + 1], p[ii]) == m0.cap(p[ii + 1], p[ii]) by {
        assert(p[ii] != p[jj - 1] && p[ii] != p[jj]);
        assert(p[ii + 1] != p[jj - 1] || ii + 1 == jj - 1);
        assert(p[ii + 1] != p[jj]);
    }
    // Pairs that are not a hop of the unsettled prefix in either direction
    // keep their original entries: the two cells just written are the hop at
    // position jj - 1 and its reverse.
    assert forall|u: int, v: int|
        0 <= u < n && 0 <= v < n && !on_path_from(p, jj - 1, u, v)
            && !on_path_from(p, jj - 1, v, u)
        implies #[trigger] mc.cap(u, v) == m0.cap(u, v) by {
        if u == p[jj - 1] && v == p[jj] {
            assert(on_path_from(p, jj - 1, u, v)) by {
                assert(jj - 1 <= jj - 1 < p.len() - 1 && p[jj - 1] == u
                    && p[jj - 1 + 1] == v);
            }
        } else if u == p[jj] && v == p[jj - 1] {
            assert(on_path_from(p, jj - 1, v, u)) by {
                assert(jj - 1 <= jj - 1 < p.len() - 1 && p[jj - 1] == v
                    && p[jj - 1 + 1] == u);
            }
        } else {
            assert(mc.cap(u, v) == ma.cap(u, v));
            assert(!on_path_from(p, jj, u, v)) by {
                if on_path_from(p, jj, u, v) {
                    let i = choose|i: int|
                        jj <= i < p.len() - 1 && #[trigger] p[i] == u && p[i + 1] == v;
                    assert(jj - 1 <= i < p.len() - 1 && p[i] == u && p[i + 1] == v);
                }
            }
            assert(!on_path_from(p, jj, v, u)) by {
                if on_path_from(p, jj, v, u) {
                    let i = choose|i: int|
                        jj <= i < p.len() - 1 && #[trigger] p[i] == v && p[i + 1] == u;
                    assert(jj - 1 <= i < p.len() - 1 && p[i] == v && p[i + 1] == u);
                }
            }
        }
    }
    assert forall|u: int, v: int| 0 <= u < n && 0 <= v < n
        implies #[trigger] mc.cap(u, v) >= 0 by {
        if u == p[jj - 1] && v == p[jj] {
        } else if u == p[jj] && v == p[jj - 1] {
            assert(ma.cap(p[jj], p[jj - 1]) >= 0);
        } else {
            assert(mc.cap(u, v) == ma.cap(u, v));
        }
    }
}

/// Applies one augmentation along the path recorded in `parent`: walking
/// from the sink back to the source, each forward edge loses the bottleneck
/// `flow` and its reverse edge gains it.
///
/// Every residual capacity stays non-negative, opposite entries keep their
/// sum, and each node's outgoing residual sum is conserved except at the
/// source (down by `flow`) and the sink (up by `flow`).
#[verifier::rlimit(100)]
pub fn augment(
    source_node: usize,
    sink_node: usize,
    parent: &Vec<i32>,
    graph: &Vec<Vec<usize>>,
    capacity: &mut CapacityMatrix,
    flow: i32,
    Ghost(p): Ghost<Seq<int>>,
)
    requires
        old(capacity).wf(),
        nonneg(*old(capacity)),
        pair_sums_bounded(*old(capacity)),
        graph_wf(graph@, old(capacity).n as int),
        parent@.len() == old(capacity).n,
        source_node < old(capacity).n,
        sink_node < old(capacity).n,
        source_node != sink_node,
        aug_path(graph@, *old(capacity), parent@, p, source_node as int, sink_node as int,
            flow as int),
    ensures
        final(capacity).wf(),
        final(capacity).n == old(capacity).n,
        nonneg(*final(capacity)),
        forall|u: int, v: int|
            0 <= u < final(capacity).n && 0 <= v < final(capacity).n
                ==> #[trigger] final(capacity).cap(u, v) + final(capacity).cap(v, u)
                    == old(capacity).cap(u, v) + old(capacity).cap(v, u),
        forall|u: int, v: int|
            0 <= u < final(capacity).n && 0 <= v < final(capacity).n
                && !on_path(p, u, v) && !on_path(p, v, u)
                ==> #[trigger] final(capacity).cap(u, v) == old(capacity).cap(u, v),
        forall|w: int|
            0 <= w < final(capacity).n && w != source_node as int && w != sink_node as int
                ==> row_sum(*final(capacity), w) == row_sum(*old(capacity), w),
        row_sum(*final(capacity), source_node as int)
            == row_sum(*old(capacity), source_node as int) - flow,
        row_sum(*final(capacity), sink_node as int)
            == row_sum(*old(capacity), sink_node as int) + flow,
{
    let ghost g = graph@;
    let ghost m0 = *capacity;
    let ghost len = p.len() as int;
    let n = capacity.n;

    let mut curr = sink_node;
    let ghost mut jj: int = p.len() - 1;
    while curr != source_node
        invariant
            m0.wf(),
            nonneg(m0),
            pair_sums_bounded(m0),
            graph_wf(g, n as int),
            g == graph@,
            n == m0.n,
            parent@.len() == n,
            source_node < n,
            sink_node < n,
            source_node != sink_node,
            aug_path(g, m0, parent@, p, source_node as int, sink_node as int, flow as int),
            len == p.len() as int,
            capacity.wf(),
            capacity.n == n,
            0 <= jj < len,
            p[jj] == curr as int,
            curr < n,
            forall|ii: int| 0 <= ii < jj
                ==> capacity.cap(#[trigger] p[ii], p[ii + 1]) == m0.cap(p[ii], p[ii + 1])
                    && capacity.cap(p[ii + 1], p[ii]) == m0.cap(p[ii + 1], p[ii]),
            forall|u: int, v: int|
                0 <= u < n && 0 <= v < n && !on_path_from(p, jj, u, v)
                    && !on_path_from(p, jj, v, u)
                    ==> #[trigger] capacity.cap(u, v) == m0.cap(u, v),
            nonneg(*capacity),
            forall|u: int, v: int|
                0 <= u < n && 0 <= v < n
                    ==> #[trigger] capacity.cap(u, v) + capacity.cap(v, u)
                        == m0.cap(u, v) + m0.cap(v, u),
            forall|w: int| 0 <= w < n
                ==> row_sum(*capacity, w) == row_sum(m0, w) + (if jj < len - 1 && w == p[jj] {
                    -(flow as int)
                } else if jj < len - 1 && w == p[len - 1] {
                    flow as int
                } else {
                    0int
                }),
        decreases jj,
    {
        proof {
            assert(jj != 0) by {
                if jj == 0 {
                    assert(p[0] == source_node as int);
                }
            }
        }
        let prev_i = parent[curr];
        proof {
            assert(parent@[p[jj]] as int == p[jj - 1]);
            assert(0 <= p[jj - 1] < n as int);
        }
        let prev = prev_i as usize;
        let ghost ma = *capacity;
        proof {
            assert(p[jj - 1] != p[jj]);
            assert(capacity.cap(p[jj - 1], p[jj]) == m0.cap(p[jj - 1], p[jj]));
            assert(capacity.cap(p[jj], p[jj - 1]) == m0.cap(p[jj], p[jj - 1]));
            assert(m0.cap(p[jj - 1], p[jj]) >= flow as int);
        }
        let c1 = capacity.get(prev, curr);
        capacity.put(prev, curr, c1 - flow);
        let ghost mb = *capacity;
        let c2 = capacity.get(curr, prev);
        proof {
            assert(c2 as int == m0.cap(p[jj], p[jj - 1]));
            assert(c2 as int + flow as int
                <= m0.cap(p[jj], p[jj - 1]) + m0.cap(p[jj - 1], p[jj]));
        }
        capacity.put(curr, prev, c2 + flow);
        let ghost mc = *capacity;
        proof {
            lemma_augment_bookkeeping(m0, ma, mb, mc, g, parent@, p, jj, flow as int,
                n as int, source_node as int, sink_node as int);
        }
        curr = prev;
        proof {
            jj = jj - 1;
        }
    }
    proof {
        assert(jj == 0) by {
            if jj != 0 {
                assert(p[jj] != p[0]);
            }
        }
        assert(p[len - 1] == sink_node as int);
    }
}

/// Everything one full solve returns.
pub struct MaxFlowResult {
    /// Sum of the bottlenecks of all augmenting paths: the value of the
    /// maximum flow.
    pub total_flow: i64,
    /// How many augmenting-path searches found a path.
    pub augmentations: u64,
    /// For every node id, whether it is reachable from the source in the
    /// final residual graph: the source side of the minimum cut.
    pub mask: Vec<bool>,
}

/// Runs the solver to saturation: repeated shortest augmenting-path searches
/// until the sink is unreachable, then one reachability pass.
///
/// The returned mask marks exactly the nodes still reachable from the source.
/// The final residual matrix is left in place; it is non-negative, opposite
/// entries keep their sums, every node other than the terminals keeps its
/// outgoing residual sum (flow conservation), and the source's outgoing
/// residual sum drops by exactly the total flow, which the sink's gains.
/// Each successful search pushes at least one unit, so the number of
/// augmentations is at most the source's initial outgoing residual sum.
#[verifier::rlimit(100)]
pub fn calculate_max_flow(
    node_count: usize,
    source_node: usize,
    sink_node: usize,
    graph: &Vec<Vec<usize>>,
    capacity: &mut CapacityMatrix,
) -> (r: MaxFlowResult)
    requires
        old(capacity).wf(),
        nonneg(*old(capacity)),
        pair_sums_bounded(*old(capacity)),
        old(capacity).n == node_count + 2,
        graph_wf(graph@, old(capacity).n as int),
        old(capacity).n as int <= i32::MAX as int,
        source_node < old(capacity).n,
        sink_node < old(capacity).n,
        source_node != sink_node,
    ensures
        final(capacity).wf(),
        final(capacity).n == old(capacity).n,
        nonneg(*final(capacity)),
        forall|u: int, v: int|
            0 <= u < final(capacity).n && 0 <= v < final(capacity).n
                ==> #[trigger] final(capacity).cap(u, v) + final(capacity).cap(v, u)
                    == old(capacity).cap(u, v) + old(capacity).cap(v, u),
        forall|w: int|
            0 <= w < final(capacity).n && w != source_node as int && w != sink_node as int
                ==> row_sum(*final(capacity), w) == row_sum(*old(capacity), w),
        row_sum(*final(capacity), source_node as int)
            == row_sum(*old(capacity), source_node as int) - r.total_flow,
        row_sum(*final(capacity), sink_node as int)
            == row_sum(*old(capacity), sink_node as int) + r.total_flow,
        forall|u: int, v: int|
            0 <= u < final(capacity).n && 0 <= v < final(capacity).n
                && !adj(graph@, u, v) && !adj(graph@, v, u)
                ==> #[trigger] final(capacity).cap(u, v) == old(capacity).cap(u, v),
        r.total_flow >= 0,
        r.augmentations as int <= r.total_flow,
        r.total_flow <= row_sum(*old(capacity), source_node as int),
        !reachable(graph@, *old(capacity), source_node as int, sink_node as int)
            ==> *final(capacity) == *old(capacity) && r.total_flow == 0
                && r.augmentations == 0,
        reachable(graph@, *old(capacity), source_node as int, sink_node as int)
            ==> r.augmentations >= 1,
        !reachable(graph@, *final(capacity), source_node as int, sink_node as int),
        r.mask@.len() == final(capacity).n,
        forall|v: int| 0 <= v < final(capacity).n
            ==> ((#[trigger] r.mask@[v]) <==> reachable(graph@, *final(capacity),
                source_node as int, v)),
{
    let ghost g = graph@;
    let ghost m0 = *capacity;
    let n = capacity.n;

    proof {
        lemma_row_sum_bounds(m0, source_node as int);
    }

    let mut parent: Vec<i32> = Vec::new();
    let mut i: usize = 0;
    while i < n
        invariant
            i <= n,
            parent@.len() == i,
        decreases n - i,
    {
        parent.push(0);
        i = i + 1;
    }

    let mut total: i64 = 0;
    let mut rounds: u64 = 0;

    loop
        invariant
            capacity.wf(),
            capacity.n == n,
            n == m0.n,
            nonneg(*capacity),
            pair_sums_bounded(*capacity),
            graph_wf(g, n as int),
            g == graph@,
            nonneg(m0),
            pair_sums_bounded(m0),
            n as int <= i32::MAX as int,
            source_node < n,
            sink_node < n,
            source_node != sink_node,
            parent@.len() == n,
            forall|u: int, v: int|
                0 <= u < n && 0 <= v < n
                    ==> #[trigger] capacity.cap(u, v) + capacity.cap(v, u)
                        == m0.cap(u, v) + m0.cap(v, u),
            forall|w: int|
                0 <= w < n && w != source_node as int && w != sink_node as int
                    ==> row_sum(*capacity, w) == row_sum(m0, w),
            row_sum(*capacity, source_node as int)
                == row_sum(m0, source_node as int) - total as int,
            row_sum(*capacity, sink_node as int)
                == row_sum(m0, sink_node as int) + total as int,
            total >= 0,
            rounds as int <= total as int,
            row_sum(m0, source_node as int) <= m0.n * (i32::MAX as int),
            row_sum(*capacity, source_node as int) >= 0,
            forall|u: int, v: int|
                0 <= u < n && 0 <= v < n && !adj(g, u, v) && !adj(g, v, u)
                    ==> #[trigger] capacity.cap(u, v) == m0.cap(u, v),
            rounds == 0 ==> *capacity == m0 && total == 0,
            !reachable(g, m0, source_node as int, sink_node as int)
                ==> *capacity == m0 && total == 0 && rounds == 0,
        ensures
            capacity.wf(),
            capacity.n == n,
            nonneg(*capacity),
            forall|u: int, v: int|
                0 <= u < n && 0 <= v < n
                    ==> #[trigger] capacity.cap(u, v) + capacity.cap(v, u)
                        == m0.cap(u, v) + m0.cap(v, u),
            forall|w: int|
                0 <= w < n && w != source_node as int && w != sink_node as int
                    ==> row_sum(*capacity, w) == row_sum(m0, w),
            row_sum(*capacity, source_node as int)
                == row_sum(m0, source_node as int) - total as int,
            row_sum(*capacity, sink_node as int)
                == row_sum(m0, sink_node as int) + total as int,
            total >= 0,
            rounds as int <= total as int,
            forall|u: int, v: int|
                0 <= u < n && 0 <= v < n && !adj(g, u, v) && !adj(g, v, u)
                    ==> #[trigger] capacity.cap(u, v) == m0.cap(u, v),
            rounds == 0 ==> *capacity == m0 && total == 0,
            !reachable(g, m0, source_node as int, sink_node as int)
                ==> *capacity == m0 && total == 0 && rounds == 0,
            !reachable(g, *capacity, source_node as int, sink_node as int),
        decreases row_sum(*capacity, source_node as int),
    {
        let nf = bfs(source_node, sink_node, &mut parent, graph, capacity);
        if nf == 0 {
            break;
        }
        proof {
            if !reachable(g, m0, source_node as int, sink_node as int) {
                assert(*capacity == m0);
                assert(false);
            }
        }
        let ghost p = choose|pp: Seq<int>|
            aug_path(g, *capacity, parent@, pp, source_node as int, sink_node as int,
                nf as int);
        let ghost mpre = *capacity;
        augment(source_node, sink_node, &parent, graph, capacity, nf, Ghost(p));
        proof {
            lemma_row_sum_bounds(*capacity, source_node as int);
            assert((n as int) * (i32::MAX as int) < 0x7fff_ffff_ffff_ffffint)
                by (nonlinear_arith)
                requires n as int <= 0x7fff_ffffint;
            // Entries of pairs the network never connects are untouched: the
            // augmenting path walks listed edges only.
            assert forall|u: int, v: int|
                0 <= u < n && 0 <= v < n && !adj(g, u, v) && !adj(g, v, u)
                implies #[trigger] capacity.cap(u, v) == m0.cap(u, v) by {
                assert(!on_path(p, u, v)) by {
                    if on_path(p, u, v) {
                        let i = choose|i: int|
                            0 <= i < p.len() - 1 && #[trigger] p[i] == u && p[i + 1] == v;
                        assert(adj(g, p[i], p[i + 1]));
                    }
                }
                assert(!on_path(p, v, u)) by {
                    if on_path(p, v, u) {
                        let i = choose|i: int|
                            0 <= i < p.len() - 1 && #[trigger] p[i] == v && p[i + 1] == u;
                        assert(adj(g, p[i], p[i + 1]));
                    }
                }
                assert(capacity.cap(u, v) == mpre.cap(u, v));
            }
        }
        total = total + (nf as i64);
        rounds = rounds + 1;
    }

    proof {
        if reachable(g, m0, source_node as int, sink_node as int) && rounds == 0 {
            assert(*capacity == m0);
            assert(false);
        }
    }
    let mask = reachable_mask(source_node, graph, capacity);
    MaxFlowResult { total_flow: total, augmentations: rounds, mask }
}

} // verus!

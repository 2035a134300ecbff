//! The reachability pass: one more breadth-first traversal of the final
//! residual graph. The visited set is the source side of the minimum cut and
//! becomes the segmentation mask.

use vstd::prelude::*;
use vstd::set_lib::{set_int_range, lemma_int_range, lemma_len_subset};
use crate::matrix::CapacityMatrix;
use crate::model::{
    graph_wf, adj, res_edge, is_res_path, reachable, nonneg, node_closed_in,
    lemma_unreachable_from_closed, lemma_reachable_step,
};

verus! {

/// A scan prefix at node `u`: the first `upto` neighbours with residual
/// capacity left are already marked.
spec fn mask_scan(
    g: Seq<Vec<usize>>,
    m: CapacityMatrix,
    vis: Seq<bool>,
    u: int,
    upto: int,
) -> bool {
    forall|jj: int|
        0 <= jj < upto && m.cap(u, (#[trigger] g[u]@[jj]) as int) > 0
            ==> vis[g[u]@[jj] as int]
}

/// The first `upto` dequeued nodes have been fully scanned.
#[verifier::opaque]
spec fn mask_processed(
    g: Seq<Vec<usize>>,
    m: CapacityMatrix,
    vis: Seq<bool>,
    q: Seq<usize>,
    upto: int,
) -> bool {
    forall|k: int| #![trigger q[k]] 0 <= k < upto
        ==> mask_scan(g, m, vis, q[k] as int, g[q[k] as int]@.len() as int)
}

/// Everything the traversal maintains: queued nodes are in range, marked,
/// pairwise distinct, each holds a recorded residual path from the source,
/// and every marked node sits in the queue.
#[verifier::opaque]
spec fn mask_inv(
    g: Seq<Vec<usize>>,
    m: CapacityMatrix,
    vis: Seq<bool>,
    paths: Map<int, Seq<int>>,
    q: Seq<usize>,
    n: int,
    source: int,
) -> bool {
    &&& q.len() <= n
    &&& forall|k: int| 0 <= k < q.len()
        ==> ((#[trigger] q[k]) as int) < n && vis[q[k] as int]
    &&& forall|k1: int, k2: int| #![trigger q[k1], q[k2]]
        0 <= k1 < k2 < q.len() ==> q[k1] != q[k2]
    &&& forall|k: int| #![trigger q[k]] 0 <= k < q.len()
        ==> paths.contains_key(q[k] as int)
            && is_res_path(g, m, paths[q[k] as int], source, q[k] as int)
    &&& forall|v: int| 0 <= v < n && #[trigger] vis[v]
        ==> exists|k: int| 0 <= k < q.len() && (#[trigger] q[k]) as int == v
}

/// A queue of pairwise distinct nodes below `n` has at most `n` entries.
proof fn lemma_mask_queue_bound(q: Seq<usize>, n: int)
    requires
        n >= 0,
        forall|k: int| 0 <= k < q.len() ==> ((#[trigger] q[k]) as int) < n,
        forall|k1: int, k2: int| #![trigger q[k1], q[k2]]
            0 <= k1 < k2 < q.len() ==> q[k1] != q[k2],
    ensures
        q.len() <= n,
{
    let nodes = Seq::new(q.len(), |k: int| q[k] as int);
    assert forall|k1: int, k2: int|
        0 <= k1 < nodes.len() && 0 <= k2 < nodes.len() && k1 != k2
        implies nodes[k1] != nodes[k2] by {
        if k1 < k2 {
            assert(q[k1] != q[k2]);
        } else {
            assert(q[k2] != q[k1]);
        }
    }
    assert(nodes.no_duplicates());
    nodes.unique_seq_to_set();
    assert forall|x: int| nodes.to_set().contains(x)
        implies set_int_range(0, n).contains(x) by {
        let k = choose|k: int| 0 <= k < nodes.len() && nodes[k] == x;
        assert(q[k] as int == x);
    }
    lemma_int_range(0, n);
    lemma_len_subset(nodes.to_set(), set_int_range(0, n));
}

/// The invariant as the traversal starts: the source alone, marked, with the
/// one-node path.
#[verifier::rlimit(100)]
proof fn lemma_mask_inv_init(
    g: Seq<Vec<usize>>,
    m: CapacityMatrix,
    vis: Seq<bool>,
    paths: Map<int, Seq<int>>,
    q: Seq<usize>,
    n: int,
    source: int,
    sourceu: usize,
)
    requires
        0 <= source < n,
        sourceu as int == source,
        n >= 1,
        g.len() == n,
        vis.len() == n,
        vis[source],
        forall|v: int| 0 <= v < n && v != source ==> !(#[trigger] vis[v]),
        q.len() == 1,
        q[0] == sourceu,
        paths == Map::<int, Seq<int>>::empty().insert(source, seq![source]),
    ensures
        mask_inv(g, m, vis, paths, q, n, source),
{
    reveal(mask_inv);
    let p0 = seq![source];
    assert(p0[p0.len() - 1] == source);
    assert(is_res_path(g, m, p0, source, source));
    assert forall|v: int| 0 <= v < n && #[trigger] vis[v]
        implies exists|k: int| 0 <= k < q.len() && (#[trigger] q[k]) as int == v by {
        assert(v == source);
        assert((q[0]) as int == v);
    }
}

/// Opens the invariant at one queue position.
proof fn lemma_mask_inv_entry(
    g: Seq<Vec<usize>>,
    m: CapacityMatrix,
    vis: Seq<bool>,
    paths: Map<int, Seq<int>>,
    q: Seq<usize>,
    n: int,
    source: int,
    k: int,
)
    requires
        mask_inv(g, m, vis, paths, q, n, source),
        0 <= k < q.len(),
    ensures
        (q[k] as int) < n,
        vis[q[k] as int],
        paths.contains_key(q[k] as int),
        is_res_path(g, m, paths[q[k] as int], source, q[k] as int),
        q.len() <= n,
{
    reveal(mask_inv);
}

/// One discovery step of the traversal: a fresh node reached over an edge
/// with residual capacity joins the marked set and the queue, with its
/// recorded path extended from the current node.
#[verifier::rlimit(100)]
proof fn lemma_mask_discover(
    g: Seq<Vec<usize>>,
    m: CapacityMatrix,
    vis0: Seq<bool>,
    vis1: Seq<bool>,
    paths0: Map<int, Seq<int>>,
    paths1: Map<int, Seq<int>>,
    q0: Seq<usize>,
    qi: int,
    cur: usize,
    nxt: usize,
    j: int,
    n: int,
    source: int,
)
    requires
        graph_wf(g, n),
        mask_inv(g, m, vis0, paths0, q0, n, source),
        vis0.len() == n,
        0 <= qi < q0.len(),
        q0[qi] == cur,
        (nxt as int) < n,
        !vis0[nxt as int],
        vis1 == vis0.update(nxt as int, true),
        0 <= j < g[cur as int]@.len(),
        g[cur as int]@[j] as int == nxt as int,
        m.cap(cur as int, nxt as int) > 0,
        paths1 == paths0.insert(nxt as int, paths0[cur as int].push(nxt as int)),
    ensures
        mask_inv(g, m, vis1, paths1, q0.push(nxt), n, source),
        q0.push(nxt).len() <= n,
{
    reveal(mask_inv);
    let pcur = paths0[cur as int];
    let pnew = pcur.push(nxt as int);
    assert(is_res_path(g, m, pcur, source, cur as int));
    assert(pnew[pnew.len() - 1] == nxt as int);
    assert(adj(g, cur as int, nxt as int)) by {
        assert(0 <= j < g[cur as int]@.len() && g[cur as int]@[j] as int == nxt as int);
    }
    assert forall|ii: int| 0 <= ii < pnew.len() - 1
        implies res_edge(g, m, #[trigger] pnew[ii], pnew[ii + 1]) by {
        if ii < pcur.len() - 1 {
            assert(pnew[ii] == pcur[ii]);
            assert(pnew[ii + 1] == pcur[ii + 1]);
        } else {
            assert(pnew[ii] == cur as int);
            assert(pnew[ii + 1] == nxt as int);
        }
    }
    assert forall|ii: int| 0 <= ii < pnew.len()
        implies 0 <= #[trigger] pnew[ii] < g.len() by {
        if ii < pcur.len() {
            assert(pnew[ii] == pcur[ii]);
        } else {
            assert(pnew[ii] == nxt as int);
        }
    }
    assert(is_res_path(g, m, pnew, source, nxt as int));

    let q1 = q0.push(nxt);
    assert forall|k: int| 0 <= k < q1.len()
        implies ((#[trigger] q1[k]) as int) < n && vis1[q1[k] as int] by {
        if k < q0.len() {
            assert(q1[k] == q0[k]);
            assert(vis0[q0[k] as int]);
        } else {
            assert(q1[k] == nxt);
        }
    }
    assert forall|k1: int, k2: int| #![trigger q1[k1], q1[k2]]
        0 <= k1 < k2 < q1.len() implies q1[k1] != q1[k2] by {
        if k2 < q0.len() {
            assert(q1[k1] == q0[k1] && q1[k2] == q0[k2]);
        } else {
            assert(q1[k2] == nxt);
            assert(q1[k1] == q0[k1]);
            assert(vis0[q0[k1] as int]);
        }
    }
    lemma_mask_queue_bound(q1, n);
    assert forall|k: int| #![trigger q1[k]] 0 <= k < q1.len()
        implies paths1.contains_key(q1[k] as int)
            && is_res_path(g, m, paths1[q1[k] as int], source, q1[k] as int) by {
        if k < q0.len() {
            assert(q1[k] == q0[k]);
            assert(q0[k] as int != nxt as int) by {
                assert(vis0[q0[k] as int]);
            }
            assert(paths1[q0[k] as int] == paths0[q0[k] as int]);
        } else {
            assert(q1[k] == nxt);
        }
    }
    assert forall|v: int| 0 <= v < n && #[trigger] vis1[v]
        implies exists|k: int| 0 <= k < q1.len() && (#[trigger] q1[k]) as int == v by {
        if v == nxt as int {
            assert((q1[q1.len() - 1]) as int == v);
        } else {
            assert(vis0[v]);
            let k = choose|k: int| 0 <= k < q0.len() && (#[trigger] q0[k]) as int == v;
            assert((q1[k]) as int == v);
        }
    }
}

/// A finished scan prefix survives marking one more node.
proof fn lemma_mask_scan_monotone(
    g: Seq<Vec<usize>>,
    m: CapacityMatrix,
    vis0: Seq<bool>,
    vis1: Seq<bool>,
    u: int,
    upto: int,
    n: int,
    nxt: int,
)
    requires
        graph_wf(g, n),
        vis0.len() == n,
        0 <= u < n,
        upto <= g[u]@.len(),
        vis1 == vis0.update(nxt, true),
        0 <= nxt < n,
        mask_scan(g, m, vis0, u, upto),
    ensures
        mask_scan(g, m, vis1, u, upto),
{
    assert forall|jj: int|
        0 <= jj < upto && m.cap(u, (#[trigger] g[u]@[jj]) as int) > 0
        implies vis1[g[u]@[jj] as int] by {
        let t = g[u]@[jj] as int;
        assert(vis0[t]);
        if t == nxt {
            assert(vis1[t]);
        } else {
            assert(vis1[t] == vis0[t]);
        }
    }
}

/// One more neighbour joins a finished scan prefix when it is either
/// capacity-free or already marked.
proof fn lemma_mask_scan_step(
    g: Seq<Vec<usize>>,
    m: CapacityMatrix,
    vis: Seq<bool>,
    u: int,
    j: int,
    nxt: int,
)
    requires
        mask_scan(g, m, vis, u, j),
        0 <= j < g[u]@.len(),
        g[u]@[j] as int == nxt,
        !(m.cap(u, nxt) > 0) || vis[nxt],
    ensures
        mask_scan(g, m, vis, u, j + 1),
{
    assert forall|jj: int|
        0 <= jj < j + 1 && m.cap(u, (#[trigger] g[u]@[jj]) as int) > 0
        implies vis[g[u]@[jj] as int] by {
        if jj == j {
            assert(g[u]@[jj] as int == nxt);
        }
    }
}

/// All fully scanned nodes stay fully scanned when one more node is marked
/// and enqueued.
proof fn lemma_mask_processed_stable(
    g: Seq<Vec<usize>>,
    m: CapacityMatrix,
    vis0: Seq<bool>,
    vis1: Seq<bool>,
    paths0: Map<int, Seq<int>>,
    q0: Seq<usize>,
    q1: Seq<usize>,
    upto: int,
    n: int,
    nxt: int,
    source: int,
)
    requires
        mask_processed(g, m, vis0, q0, upto),
        mask_inv(g, m, vis0, paths0, q0, n, source),
        graph_wf(g, n),
        vis0.len() == n,
        vis1 == vis0.update(nxt, true),
        0 <= nxt < n,
        0 <= upto <= q0.len(),
        q1.len() >= q0.len(),
        forall|k: int| 0 <= k < q0.len() ==> q1[k] == #[trigger] q0[k],
    ensures
        mask_processed(g, m, vis1, q1, upto),
{
    reveal(mask_processed);
    reveal(mask_inv);
    assert forall|k: int| #![trigger q1[k]] 0 <= k < upto
        implies mask_scan(g, m, vis1, q1[k] as int, g[q1[k] as int]@.len() as int) by {
        assert(q1[k] == q0[k]);
        assert(mask_scan(g, m, vis0, q0[k] as int, g[q0[k] as int]@.len() as int));
        assert((q0[k] as int) < n);
        lemma_mask_scan_monotone(g, m, vis0, vis1, q0[k] as int,
            g[q0[k] as int]@.len() as int, n, nxt);
    }
}

/// A fully scanned node at the queue head extends the processed prefix.
proof fn lemma_mask_processed_extend(
    g: Seq<Vec<usize>>,
    m: CapacityMatrix,
    vis: Seq<bool>,
    q: Seq<usize>,
    upto: int,
)
    requires
        mask_processed(g, m, vis, q, upto),
        0 <= upto < q.len(),
        mask_scan(g, m, vis, q[upto] as int, g[q[upto] as int]@.len() as int),
    ensures
        mask_processed(g, m, vis, q, upto + 1),
{
    reveal(mask_processed);
}

/// An empty processed prefix.
proof fn lemma_mask_processed_empty(
    g: Seq<Vec<usize>>,
    m: CapacityMatrix,
    vis: Seq<bool>,
    q: Seq<usize>,
)
    ensures
        mask_processed(g, m, vis, q, 0),
{
    reveal(mask_processed);
}

/// At the end of the traversal the marked nodes are exactly those reachable
/// from the source in the residual graph.
#[verifier::rlimit(100)]
proof fn lemma_mask_exact(
    g: Seq<Vec<usize>>,
    m: CapacityMatrix,
    vis: Seq<bool>,
    paths: Map<int, Seq<int>>,
    q: Seq<usize>,
    n: int,
    source: int,
)
    requires
        mask_processed(g, m, vis, q, q.len() as int),
        mask_inv(g, m, vis, paths, q, n, source),
        graph_wf(g, n),
        vis.len() == n,
        0 <= source < n,
        vis[source],
    ensures
        forall|v: int| 0 <= v < n ==> ((#[trigger] vis[v]) <==> reachable(g, m, source, v)),
{
    reveal(mask_processed);
    reveal(mask_inv);
    let s = Set::new(|v: int| 0 <= v < n && vis[v]);
    assert forall|u: int| 0 <= u < g.len() && #[trigger] s.contains(u)
        implies node_closed_in(g, m, s, u) by {
        assert(vis[u]);
        let k = choose|k: int| 0 <= k < q.len() && (#[trigger] q[k]) as int == u;
        assert(mask_scan(g, m, vis, u, g[u]@.len() as int));
        assert forall|j: int|
            0 <= j < g[u]@.len() && m.cap(u, (#[trigger] g[u]@[j]) as int) > 0
            implies s.contains(g[u]@[j] as int) by {
            assert(g[u]@[j] < n);
            assert(vis[g[u]@[j] as int]);
        }
    }
    assert forall|v: int| 0 <= v < n
        implies ((#[trigger] vis[v]) <==> reachable(g, m, source, v)) by {
        if vis[v] {
            let k = choose|k: int| 0 <= k < q.len() && (#[trigger] q[k]) as int == v;
            assert(is_res_path(g, m, paths[v], source, v));
            assert(reachable(g, m, source, v));
        } else {
            assert(!s.contains(v));
            lemma_unreachable_from_closed(g, m, s, source, v);
        }
    }
}

/// The reachability pass is deterministic: any two masks that both report
/// residual reachability of the same state agree pointwise, so running the
/// pass twice on one final residual graph yields the same mask.
pub proof fn lemma_reachability_mask_unique(
    g: Seq<Vec<usize>>,
    m: CapacityMatrix,
    source: int,
    n: int,
    m1: Seq<bool>,
    m2: Seq<bool>,
)
    requires
        m1.len() == n,
        m2.len() == n,
        forall|v: int| 0 <= v < n ==> ((#[trigger] m1[v]) <==> reachable(g, m, source, v)),
        forall|v: int| 0 <= v < n ==> ((#[trigger] m2[v]) <==> reachable(g, m, source, v)),
    ensures
        m1 =~= m2,
{
    assert forall|v: int| 0 <= v < n implies m1[v] == m2[v] by {
        assert(m1[v] <==> reachable(g, m, source, v));
        assert(m2[v] <==> reachable(g, m, source, v));
    }
}

/// Every edge out of the source side of the final cut is saturated: a mask
/// that reports residual reachability admits no leftover capacity from a
/// reachable node to an unreachable one, which is the cut half of the
/// max-flow/min-cut equality.
pub proof fn lemma_cut_saturated(
    g: Seq<Vec<usize>>,
    m: CapacityMatrix,
    source: int,
    n: int,
    mask: Seq<bool>,
    u: int,
    v: int,
)
    requires
        nonneg(m),
        mask.len() == n,
        g.len() == n,
        forall|x: int| 0 <= x < n ==> ((#[trigger] mask[x]) <==> reachable(g, m, source, x)),
        0 <= u < n,
        0 <= v < n,
        mask[u],
        !mask[v],
        adj(g, u, v),
        m.valid(u),
        m.valid(v),
    ensures
        m.cap(u, v) == 0,
{
    if m.cap(u, v) > 0 {
        assert(res_edge(g, m, u, v));
        assert(reachable(g, m, source, u));
        lemma_reachable_step(g, m, source, u, v);
        assert(mask[v]);
    }
}

/// The reachability pass: marks every node reachable from the source along
/// edges with positive residual capacity and returns the marks. The mask is
/// exactly residual reachability, so it is a function of the residual graph
/// alone: computing it twice on the same state gives the same mask.
#[verifier::rlimit(100)]
pub fn reachable_mask(
    source_node: usize,
    graph: &Vec<Vec<usize>>,
    capacity: &CapacityMatrix,
) -> (mask: Vec<bool>)
    requires
        capacity.wf(),
        graph_wf(graph@, capacity.n as int),
        source_node < capacity.n,
    ensures
        mask@.len() == capacity.n,
        forall|v: int| 0 <= v < capacity.n
            ==> ((#[trigger] mask@[v]) <==> reachable(graph@, *capacity, source_node as int,
                v)),
{
    let ghost g = graph@;
    let ghost m = *capacity;
    let n = capacity.n;

    let mut visited: Vec<bool> = Vec::new();
    let mut i: usize = 0;
    while i < n
        invariant
            i <= n,
            visited@.len() == i,
            forall|k: int| 0 <= k < i ==> !(#[trigger] visited@[k]),
        decreases n - i,
    {
        visited.push(false);
        i = i + 1;
    }
    visited[source_node] = true;

    let mut q: Vec<usize> = Vec::new();
    q.push(source_node);
    let mut qi: usize = 0;

    let ghost mut paths: Map<int, Seq<int>> = Map::<int, Seq<int>>::empty().insert(
        source_node as int,
        seq![source_node as int],
    );

    proof {
        lemma_mask_inv_init(g, m, visited@, paths, q@, n as int, source_node as int,
            source_node);
        lemma_mask_processed_empty(g, m, visited@, q@);
    }

    while qi < q.len()
        invariant
            capacity.wf(),
            graph_wf(g, n as int),
            g == graph@,
            m == *capacity,
            n == capacity.n,
            source_node < n,
            visited@.len() == n,
            visited@[source_node as int],
            qi <= q@.len(),
            q@.len() <= n,
            mask_inv(g, m, visited@, paths, q@, n as int, source_node as int),
            mask_processed(g, m, visited@, q@, qi as int),
        decreases n - qi,
    {
        let node = q[qi];
        proof {
            lemma_mask_inv_entry(g, m, visited@, paths, q@, n as int, source_node as int,
                qi as int);
        }

        let deg = graph[node].len();
        let mut j: usize = 0;
        while j < deg
            invariant
                capacity.wf(),
                graph_wf(g, n as int),
                g == graph@,
                m == *capacity,
                n == capacity.n,
                source_node < n,
                node < n,
                deg == graph@[node as int]@.len(),
                j <= deg,
                visited@.len() == n,
                visited@[source_node as int],
                qi < q@.len(),
                q@.len() <= n,
                q@[qi as int] == node,
                mask_inv(g, m, visited@, paths, q@, n as int, source_node as int),
                mask_processed(g, m, visited@, q@, qi as int),
                mask_scan(g, m, visited@, node as int, j as int),
            decreases deg - j,
        {
            let next = graph[node][j];
            if !visited[next] && capacity.get(node, next) > 0 {
                let ghost vis0 = visited@;
                let ghost paths0 = paths;
                let ghost q0 = q@;
                visited[next] = true;
                q.push(next);
                proof {
                    paths = paths0.insert(next as int, paths0[node as int].push(next as int));
                    assert(visited@ =~= vis0.update(next as int, true));
                    lemma_mask_discover(g, m, vis0, visited@, paths0, paths, q0, qi as int,
                        node, next, j as int, n as int, source_node as int);
                    lemma_mask_processed_stable(g, m, vis0, visited@, paths0, q0, q@,
                        qi as int, n as int, next as int, source_node as int);
                    lemma_mask_scan_monotone(g, m, vis0, visited@, node as int, j as int,
                        n as int, next as int);
                    lemma_mask_scan_step(g, m, visited@, node as int, j as int, next as int);
                }
            } else {
                proof {
                    lemma_mask_scan_step(g, m, visited@, node as int, j as int, next as int);
                }
            }
            j = j + 1;
        }
        proof {
            lemma_mask_processed_extend(g, m, visited@, q@, qi as int);
        }
        qi = qi + 1;
    }

    proof {
        lemma_mask_exact(g, m, visited@, paths, q@, n as int, source_node as int);
    }
    visited
}

} // verus!

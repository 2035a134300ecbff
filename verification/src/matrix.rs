//! Dense square matrix of residual capacities.
//!
//! The solver owns one such matrix per solve call; entry `(u, v)` is the
//! remaining residual capacity of the directed edge from node `u` to node
//! `v`. Storage is a single row-major vector, so reverse arcs are addressed
//! by swapping the indices.

use vstd::prelude::*;

verus! {

pub struct CapacityMatrix {
    pub n: usize,
    pub data: Vec<i32>,
}

impl CapacityMatrix {
    /// An `n`-by-`n` grid stored row-major in one vector.
    pub open spec fn wf(self) -> bool {
        self.data@.len() == self.n * self.n
    }

    /// Entry at row `u`, column `v`, as a mathematical integer.
    pub open spec fn cap(self, u: int, v: int) -> int {
        self.data@[u * (self.n as int) + v] as int
    }

    /// `u` is a node index this matrix has a row and column for.
    pub open spec fn valid(self, u: int) -> bool {
        0 <= u < self.n as int
    }

    /// All-zero matrix for `n` nodes; `None` exactly when `n * n`
    /// entries do not fit in a `usize`.
    pub fn new(n: usize) -> (r: Option<CapacityMatrix>)
        ensures
            r is Some <==> n * n <= usize::MAX,
            r is Some ==> r.unwrap().wf() && r.unwrap().n == n
                && forall|u: int, v: int|
                    r.unwrap().valid(u) && r.unwrap().valid(v)
                        ==> r.unwrap().cap(u, v) == 0,
    {
        match n.checked_mul(n) {
            None => None,
            Some(total) => {
                let mut data: Vec<i32> = Vec::new();
                let mut i: usize = 0;
                while i < total
                    invariant
                        i <= total,
                        data@.len() == i,
                        forall|k: int| 0 <= k < i ==> data@[k] == 0i32,
                    decreases total - i,
                {
                    data.push(0);
                    i = i + 1;
                }
                let m = CapacityMatrix { n, data };
                proof {
                    assert forall|u: int, v: int| m.valid(u) && m.valid(v)
                        implies m.cap(u, v) == 0 by {
                        lemma_flat_index_in_range(n as int, u, v);
                    }
                }
                Some(m)
            }
        }
    }

    pub fn get(&self, u: usize, v: usize) -> (r: i32)
        requires
            self.wf(),
            self.valid(u as int),
            self.valid(v as int),
        ensures
            r as int == self.cap(u as int, v as int),
    {
        proof {
            lemma_flat_index_in_range(self.n as int, u as int, v as int);
            assert(self.data.len() == self.data@.len());
        }
        self.data[u * self.n + v]
    }

    pub fn put(&mut self, u: usize, v: usize, x: i32)
        requires
            old(self).wf(),
            old(self).valid(u as int),
            old(self).valid(v as int),
        ensures
            final(self).wf(),
            final(self).n == old(self).n,
            forall|a: int, b: int| final(self).valid(a) && final(self).valid(b)
                ==> final(self).cap(a, b) == (if a == u as int && b == v as int {
                    x as int
                } else {
                    old(self).cap(a, b)
                }),
    {
        proof {
            lemma_flat_index_in_range(self.n as int, u as int, v as int);
            assert(self.data.len() == self.data@.len());
        }
        let idx = u * self.n + v;
        self.data[idx] = x;
        proof {
            assert forall|a: int, b: int| self.valid(a) && self.valid(b)
                implies self.cap(a, b) == (if a == u as int && b == v as int {
                    x as int
                } else {
                    old(self).cap(a, b)
                }) by {
                lemma_flat_index_in_range(self.n as int, a, b);
                if a * (self.n as int) + b == u as int * (self.n as int) + v as int {
                    lemma_flat_index_injective(self.n as int, a, b, u as int, v as int);
                }
            }
        }
    }
}

/// Row-major indices of in-range entries stay below `n * n`.
proof fn lemma_flat_index_in_range(n: int, u: int, v: int) by (nonlinear_arith)
    requires
        0 <= u < n,
        0 <= v < n,
    ensures
        0 <= u * n + v < n * n,
{
}

/// Two in-range coordinate pairs with the same row-major index are equal.
proof fn lemma_flat_index_injective(n: int, a: int, b: int, u: int, v: int) by (nonlinear_arith)
    requires
        0 <= a < n,
        0 <= b < n,
        0 <= u < n,
        0 <= v < n,
        a * n + b == u * n + v,
    ensures
        a == u && b == v,
{
}

} // verus!

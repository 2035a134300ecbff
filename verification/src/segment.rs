//! The full segmentation pipeline on plain values: build the network from a
//! row-major intensity grid, saturate it, and return the pixel mask of the
//! source side of the minimum cut.

use vstd::prelude::*;
use crate::matrix::CapacityMatrix;
use crate::model::{graph_wf, adj, reachable, nonneg, row_sum};
use crate::network::{build_network, built_cap, dims_too_large, BuildError, FlowNetwork};
use crate::solver::calculate_max_flow;

verus! {

/// What the solver leaves behind: a residual matrix over the built network's
/// adjacency (`m0` holds the built capacities) in which opposite entries
/// still hold the built capacity pair, nothing is negative, every pixel node
/// keeps its outgoing residual sum (flow conservation), and no residual path
/// joins source and sink.
pub open spec fn is_saturated_residual(
    px: Seq<u8>,
    w: int,
    h: int,
    g: Seq<Vec<usize>>,
    m0: CapacityMatrix,
    fin: CapacityMatrix,
) -> bool {
    &&& m0.wf()
    &&& m0.n as int == w * h + 2
    &&& forall|u: int, v: int|
        0 <= u < m0.n && 0 <= v < m0.n
            ==> #[trigger] m0.cap(u, v) == built_cap(px, w, h, u, v)
    &&& fin.wf()
    &&& fin.n == m0.n
    &&& nonneg(fin)
    &&& graph_wf(g, w * h + 2)
    &&& forall|u: int, v: int|
        0 <= u < fin.n && 0 <= v < fin.n
            ==> ((#[trigger] adj(g, u, v)) <==> built_cap(px, w, h, u, v) > 0)
    &&& forall|u: int, v: int|
        0 <= u < fin.n && 0 <= v < fin.n
            ==> #[trigger] fin.cap(u, v) + fin.cap(v, u) == m0.cap(u, v) + m0.cap(v, u)
    &&& forall|x: int|
        1 <= x <= w * h ==> #[trigger] row_sum(fin, x) == row_sum(m0, x)
    &&& row_sum(fin, 0) <= row_sum(m0, 0)
    &&& !reachable(g, fin, 0, w * h + 1)
}

/// Segments a grayscale grid: pixel `(row, col)` of the result (at index
/// `row * width + col`) is true exactly when its node is still reachable
/// from the source after the built network has been saturated — the
/// foreground side of a minimum cut.
///
/// Fails with `InvalidDimensions` exactly when `width` or `height` is zero,
/// and with `ArithmeticOverflow` exactly when the network would not fit the
/// machine's integer ranges.
#[verifier::rlimit(100)]
pub fn segment(width: usize, height: usize, pixels: &Vec<u8>) -> (r: Result<Vec<bool>, BuildError>)
    requires
        pixels@.len() == width * height,
    ensures
        r is Err <==> (width == 0 || height == 0 || dims_too_large(width as int,
            height as int)),
        (width == 0 || height == 0) ==> r == Err::<Vec<bool>, BuildError>(
            BuildError::InvalidDimensions),
        (width > 0 && height > 0 && dims_too_large(width as int, height as int))
            ==> r == Err::<Vec<bool>, BuildError>(BuildError::ArithmeticOverflow),
        r is Ok ==> r.unwrap()@.len() == width * height,
        r is Ok ==> exists|g: Seq<Vec<usize>>, m0: CapacityMatrix, fin: CapacityMatrix| {
            &&& #[trigger] is_saturated_residual(pixels@, width as int, height as int, g,
                m0, fin)
            &&& forall|i: int|
                0 <= i < width * height
                    ==> ((#[trigger] r.unwrap()@[i]) <==> reachable(g, fin, 0, i + 1))
        },
{
    let net = match build_network(width, height, pixels) {
        Err(e) => {
            return Err(e);
        },
        Ok(net) => net,
    };
    let FlowNetwork { graph, mut capacity, node_count } = net;
    let ghost m0 = capacity;

    let res = calculate_max_flow(node_count, 0, node_count + 1, &graph, &mut capacity);

    let mut maskpx: Vec<bool> = Vec::new();
    let mut i: usize = 0;
    while i < node_count
        invariant
            i <= node_count,
            maskpx@.len() == i,
            res.mask@.len() == node_count + 2,
            forall|k: int| 0 <= k < i ==> #[trigger] maskpx@[k] == res.mask@[k + 1],
        decreases node_count - i,
    {
        maskpx.push(res.mask[i + 1]);
        i = i + 1;
    }

    proof {
        let g = graph@;
        let fin = capacity;
        let w = width as int;
        let h = height as int;
        assert forall|x: int| 1 <= x <= w * h
            implies #[trigger] row_sum(fin, x) == row_sum(m0, x) by {
            assert(x != 0 && x != node_count + 1);
        }
        assert(row_sum(fin, 0) <= row_sum(m0, 0)) by {
            assert(row_sum(fin, 0) == row_sum(m0, 0) - res.total_flow);
        }
        assert(is_saturated_residual(pixels@, w, h, g, m0, fin));
        assert forall|k: int| 0 <= k < width * height
            implies ((#[trigger] maskpx@[k]) <==> reachable(g, fin, 0, k + 1)) by {
            assert(maskpx@[k] == res.mask@[k + 1]);
        }
    }
    Ok(maskpx)
}

} // verus!

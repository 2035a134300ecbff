//! The network builder: turns a rectangular grid of intensity samples into a
//! flow network. One node per pixel plus a source and a sink; directed edges
//! to the 8 in-bounds grid neighbours, weighted by pixel similarity; the top
//! row is wired from the source and the bottom row to the sink with the
//! maximum weight.

use vstd::prelude::*;
use vstd::arithmetic::div_mod::{lemma_fundamental_div_mod, lemma_fundamental_div_mod_converse};
use crate::matrix::CapacityMatrix;
use crate::model::{graph_wf, adj, nonneg, pair_sums_bounded};

verus! {

/// Maximum edge weight, also the capacity of the synthetic terminal edges.
pub const EDGE_THRESHOLD: i32 = 255;

/// Why a network cannot be built.
#[derive(Debug, PartialEq, Eq, Structural, Clone, Copy)]
pub enum BuildError {
    /// Width or height is zero.
    InvalidDimensions,
    /// The dense capacity matrix would not fit in address space.
    ArithmeticOverflow,
}

/// The similarity weight of two intensities: the maximum weight for equal
/// values, otherwise inversely proportional to the absolute difference, so
/// that the cut is drawn toward high-gradient boundaries.
pub open spec fn similarity(a: u8, b: u8) -> int {
    if a == b {
        255
    } else if a > b {
        255int / (a - b)
    } else {
        255int / (b - a)
    }
}

/// Node id of the pixel at `(row, col)`: pixels are numbered row-major from
/// `1`; `0` is the source and `width * height + 1` the sink.
pub open spec fn node_id(row: int, col: int, width: int) -> int {
    row * width + col + 1
}

/// 8-connectivity of pixel coordinates.
pub open spec fn neighbors(r1: int, c1: int, r2: int, c2: int) -> bool {
    &&& -1 <= r2 - r1 <= 1
    &&& -1 <= c2 - c1 <= 1
    &&& !(r1 == r2 && c1 == c2)
}

/// The capacity the builder assigns to the directed edge `(u, v)`:
/// `255` from the source to each top-row pixel and from each bottom-row
/// pixel to the sink, the similarity weight between 8-connected pixels, and
/// `0` everywhere else.
pub open spec fn built_cap(px: Seq<u8>, w: int, h: int, u: int, v: int) -> int {
    let n = w * h;
    if u == 0 {
        if 1 <= v <= w {
            255
        } else {
            0
        }
    } else if u == n + 1 {
        0
    } else if v == n + 1 {
        if (u - 1) / w == h - 1 {
            255
        } else {
            0
        }
    } else if v == 0 {
        0
    } else {
        let r1 = (u - 1) / w;
        let c1 = (u - 1) % w;
        let r2 = (v - 1) / w;
        let c2 = (v - 1) % w;
        if neighbors(r1, c1, r2, c2) {
            similarity(px[r1 * w + c1], px[r2 * w + c2])
        } else {
            0
        }
    }
}

/// The similarity weight of two pixel intensities, as the capacity of the
/// edge between their nodes: the maximum weight `255` for equal intensities,
/// otherwise `255` divided by their absolute difference.
pub fn capacity_function(first: u8, second: u8) -> (r: i32)
    ensures
        r as int == similarity(first, second),
        1 <= r <= 255,
{
    if first == second {
        return EDGE_THRESHOLD;
    }
    let diff: i32 = if first >= second {
        first as i32 - second as i32
    } else {
        second as i32 - first as i32
    };
    let r = EDGE_THRESHOLD / diff;
    proof {
        assert(1 <= r as int <= 255) by (nonlinear_arith)
            requires
                r as int == 255int / (diff as int),
                1 <= diff as int <= 255,
        ;
    }
    r
}

/// Every built capacity lies between `0` and `255`.
proof fn lemma_built_cap_bounds(px: Seq<u8>, w: int, h: int, u: int, v: int)
    requires
        w >= 1,
    ensures
        0 <= built_cap(px, w, h, u, v) <= 255,
{
    let n = w * h;
    if u == 0 || u == n + 1 || v == n + 1 || v == 0 {
    } else {
        let r1 = (u - 1) / w;
        let c1 = (u - 1) % w;
        let r2 = (v - 1) / w;
        let c2 = (v - 1) % w;
        if neighbors(r1, c1, r2, c2) {
            let a = px[r1 * w + c1];
            let b = px[r2 * w + c2];
            assert(0 <= similarity(a, b) <= 255) by (nonlinear_arith);
        }
    }
}

/// The row-major coordinates of a constructed node id are recovered by
/// division and remainder.
proof fn lemma_node_coords(w: int, r: int, c: int)
    requires
        w >= 1,
        0 <= c < w,
        0 <= r,
    ensures
        (node_id(r, c, w) - 1) / w == r,
        (node_id(r, c, w) - 1) % w == c,
{
    lemma_fundamental_div_mod_converse(r * w + c, w, r, c);
}

/// Every pixel id maps back to in-range coordinates.
proof fn lemma_pixel_coords(w: int, h: int, v: int)
    requires
        w >= 1,
        h >= 1,
        1 <= v <= w * h,
    ensures
        0 <= (v - 1) / w < h,
        0 <= (v - 1) % w < w,
        v == node_id((v - 1) / w, (v - 1) % w, w),
{
    lemma_fundamental_div_mod(v - 1, w);
    let q = (v - 1) / w;
    let rem = (v - 1) % w;
    assert(0 <= rem < w);
    assert(0 <= q < h) by (nonlinear_arith)
        requires
            w * q + rem == v - 1,
            1 <= v <= w * h,
            0 <= rem < w,
            w >= 1,
            h >= 1,
    ;
    assert(q * w == w * q) by (nonlinear_arith);
}

/// Stepping one row or column moves the node id by the corresponding offset.
proof fn lemma_node_id_step(w: int, r: int, c: int) by (nonlinear_arith)
    ensures
        node_id(r - 1, c, w) == node_id(r, c, w) - w,
        node_id(r - 1, c + 1, w) == node_id(r, c, w) - w + 1,
        node_id(r, c + 1, w) == node_id(r, c, w) + 1,
        node_id(r + 1, c + 1, w) == node_id(r, c, w) + w + 1,
        node_id(r + 1, c, w) == node_id(r, c, w) + w,
        node_id(r + 1, c - 1, w) == node_id(r, c, w) + w - 1,
        node_id(r, c - 1, w) == node_id(r, c, w) - 1,
        node_id(r - 1, c - 1, w) == node_id(r, c, w) - w - 1,
{
}

/// Node ids of in-range pixels lie between `1` and the pixel count.
proof fn lemma_node_in_range(w: int, h: int, r: int, c: int) by (nonlinear_arith)
    requires
        w >= 1,
        h >= 1,
        0 <= r < h,
        0 <= c < w,
    ensures
        1 <= node_id(r, c, w) <= w * h,
{
}

/// The adjacency list the builder gives the pixel at `(r, c)`, in
/// construction order: the in-bounds grid neighbours scanned up, up-right,
/// right, down-right, down, down-left, left, up-left, then the sink for
/// bottom-row pixels. Each in-bounds neighbour occurs exactly once.
pub open spec fn pixel_neighbors(w: int, h: int, r: int, c: int) -> Seq<int> {
    let u = node_id(r, c, w);
    let s0 = Seq::<int>::empty();
    let s1 = if r > 0 { s0.push(u - w) } else { s0 };
    let s2 = if c + 1 < w && r > 0 { s1.push(u - w + 1) } else { s1 };
    let s3 = if c + 1 < w { s2.push(u + 1) } else { s2 };
    let s4 = if c + 1 < w && r + 1 < h { s3.push(u + w + 1) } else { s3 };
    let s5 = if r + 1 < h { s4.push(u + w) } else { s4 };
    let s6 = if c > 0 && r + 1 < h { s5.push(u + w - 1) } else { s5 };
    let s7 = if c > 0 { s6.push(u - 1) } else { s6 };
    let s8 = if c > 0 && r > 0 { s7.push(u - w - 1) } else { s7 };
    if r == h - 1 {
        s8.push(w * h + 1)
    } else {
        s8
    }
}

/// `v` spells out exactly the node ids of `s`, in order.
pub open spec fn list_matches(v: Seq<usize>, s: Seq<int>) -> bool {
    &&& v.len() == s.len()
    &&& forall|k: int| 0 <= k < s.len() ==> (#[trigger] v[k]) as int == s[k]
}

/// Adds the outgoing edges of one pixel node: the in-bounds grid neighbours
/// in a fixed scan order, then the sink edge for bottom-row pixels. Returns
/// the node's adjacency list; only this node's capacity row is written, and
/// afterwards it holds exactly the built capacities.
#[verifier::rlimit(100)]
fn add_pixel_edges(
    row: usize,
    col: usize,
    width: usize,
    height: usize,
    pixels: &Vec<u8>,
    capacity: &mut CapacityMatrix,
) -> (nbrs: Vec<usize>)
    requires
        width >= 1,
        height >= 1,
        row < height,
        col < width,
        pixels@.len() == width * height,
        old(capacity).wf(),
        old(capacity).n == width * height + 2,
        forall|v: int| 0 <= v < old(capacity).n
            ==> #[trigger] old(capacity).cap(
                node_id(row as int, col as int, width as int), v) == 0,
    ensures
        final(capacity).wf(),
        final(capacity).n == old(capacity).n,
        forall|a: int, v: int|
            0 <= a < final(capacity).n && 0 <= v < final(capacity).n
                && a != node_id(row as int, col as int, width as int)
                ==> #[trigger] final(capacity).cap(a, v) == old(capacity).cap(a, v),
        forall|v: int| 0 <= v < final(capacity).n
            ==> #[trigger] final(capacity).cap(node_id(row as int, col as int, width as int),
                v) == built_cap(pixels@, width as int, height as int,
                node_id(row as int, col as int, width as int), v),
        forall|j: int| 0 <= j < nbrs@.len()
            ==> ((#[trigger] nbrs@[j]) as int) < final(capacity).n
                && built_cap(pixels@, width as int, height as int,
                    node_id(row as int, col as int, width as int), nbrs@[j] as int) > 0,
        forall|v: int|
            0 <= v < final(capacity).n && built_cap(pixels@, width as int, height as int,
                node_id(row as int, col as int, width as int), v) > 0
                ==> exists|j: int| 0 <= j < nbrs@.len() && (#[trigger] nbrs@[j]) as int == v,
        list_matches(nbrs@, pixel_neighbors(width as int, height as int, row as int,
            col as int)),
{
    let ghost w = width as int;
    let ghost h = height as int;
    let ghost n = w * h;
    let ghost r1 = row as int;
    let ghost c1 = col as int;
    let ghost px = pixels@;

    proof {
        lemma_node_id_step(w, r1, c1);
        lemma_node_in_range(w, h, r1, c1);
        lemma_node_coords(w, r1, c1);
        assert((row as int) * (width as int) == r1 * w);
    }
    let node = row * width + col + 1;
    let ghost u = node as int;
    let sink = width * height + 1;

    let mut nbrs: Vec<usize> = Vec::new();
    let ghost mut expect: Seq<int> = Seq::<int>::empty();

    // up
    if row != 0 {
        proof {
            lemma_node_in_range(w, h, r1 - 1, c1);
            lemma_node_coords(w, r1 - 1, c1);
        }
        let v = node - width;
        let cf = capacity_function(pixels[node - 1], pixels[v - 1]);
        nbrs.push(v);
        capacity.put(node, v, cf);
        proof {
            expect = expect.push(v as int);
        }
    }
    // up-right
    if col + 1 != width && row != 0 {
        proof {
            lemma_node_in_range(w, h, r1 - 1, c1 + 1);
            lemma_node_coords(w, r1 - 1, c1 + 1);
        }
        let v = node - width + 1;
        let cf = capacity_function(pixels[node - 1], pixels[v - 1]);
        nbrs.push(v);
        capacity.put(node, v, cf);
        proof {
            expect = expect.push(v as int);
        }
    }
    // right
    if col + 1 != width {
        proof {
            lemma_node_in_range(w, h, r1, c1 + 1);
            lemma_node_coords(w, r1, c1 + 1);
        }
        let v = node + 1;
        let cf = capacity_function(pixels[node - 1], pixels[v - 1]);
        nbrs.push(v);
        capacity.put(node, v, cf);
        proof {
            expect = expect.push(v as int);
        }
    }
    // down-right
    if col + 1 != width && row + 1 != height {
        proof {
            lemma_node_in_range(w, h, r1 + 1, c1 + 1);
            lemma_node_coords(w, r1 + 1, c1 + 1);
        }
        let v = node + width + 1;
        let cf = capacity_function(pixels[node - 1], pixels[v - 1]);
        nbrs.push(v);
        capacity.put(node, v, cf);
        proof {
            expect = expect.push(v as int);
        }
    }
    // down
    if row + 1 != height {
        proof {
            lemma_node_in_range(w, h, r1 + 1, c1);
            lemma_node_coords(w, r1 + 1, c1);
        }
        let v = node + width;
        let cf = capacity_function(pixels[node - 1], pixels[v - 1]);
        nbrs.push(v);
        capacity.put(node, v, cf);
        proof {
            expect = expect.push(v as int);
        }
    }
    // down-left
    if col != 0 && row + 1 != height {
        proof {
            lemma_node_in_range(w, h, r1 + 1, c1 - 1);
            lemma_node_coords(w, r1 + 1, c1 - 1);
        }
        let v = node + width - 1;
        let cf = capacity_function(pixels[node - 1], pixels[v - 1]);
        nbrs.push(v);
        capacity.put(node, v, cf);
        proof {
            expect = expect.push(v as int);
        }
    }
    // left
    if col != 0 {
        proof {
            lemma_node_in_range(w, h, r1, c1 - 1);
            lemma_node_coords(w, r1, c1 - 1);
        }
        let v = node - 1;
        let cf = capacity_function(pixels[node - 1], pixels[v - 1]);
        nbrs.push(v);
        capacity.put(node, v, cf);
        proof {
            expect = expect.push(v as int);
        }
    }
    // up-left
    if col != 0 && row != 0 {
        proof {
            lemma_node_in_range(w, h, r1 - 1, c1 - 1);
            lemma_node_coords(w, r1 - 1, c1 - 1);
        }
        let v = node - width - 1;
        let cf = capacity_function(pixels[node - 1], pixels[v - 1]);
        nbrs.push(v);
        capacity.put(node, v, cf);
        proof {
            expect = expect.push(v as int);
        }
    }
    // sink edge for the bottom row
    if row + 1 == height {
        nbrs.push(sink);
        capacity.put(node, sink, EDGE_THRESHOLD);
        proof {
            expect = expect.push(sink as int);
        }
    }

    proof {
        assert forall|v: int| 0 <= v < capacity.n
            implies #[trigger] capacity.cap(u, v) == built_cap(px, w, h, u, v) by {
            if 1 <= v <= n && v != u {
                lemma_pixel_coords(w, h, v);
            }
        }
        assert forall|j: int| 0 <= j < nbrs@.len()
            implies ((#[trigger] nbrs@[j]) as int) < capacity.n
                && built_cap(px, w, h, u, nbrs@[j] as int) > 0 by {
            let v = nbrs@[j] as int;
            if 1 <= v <= n && v != u {
                lemma_pixel_coords(w, h, v);
            }
        }
        broadcast use vstd::seq_lib::lemma_seq_contains_after_push;

        assert forall|v: int|
            0 <= v < capacity.n && built_cap(px, w, h, u, v) > 0
            implies exists|j: int| 0 <= j < nbrs@.len()
                && (#[trigger] nbrs@[j]) as int == v by {
            if v == n + 1 {
                assert(nbrs@.contains(sink));
                let j = choose|j: int| 0 <= j < nbrs@.len() && nbrs@[j] == sink;
                assert((nbrs@[j]) as int == v);
            } else {
                lemma_pixel_coords(w, h, v);
                assert(nbrs@.contains(v as usize));
                let j = choose|j: int| 0 <= j < nbrs@.len() && nbrs@[j] == v as usize;
                assert((nbrs@[j]) as int == v);
            }
        }

        assert(expect =~= pixel_neighbors(w, h, r1, c1));
        assert(nbrs@.len() == expect.len());
        assert forall|k: int| 0 <= k < expect.len()
            implies (#[trigger] nbrs@[k]) as int == expect[k] by {
        }
    }
    nbrs
}

/// A built flow network: adjacency lists for `node_count + 2` nodes (the
/// source is node `0`, the sink node `node_count + 1`) and the dense
/// capacity matrix.
pub struct FlowNetwork {
    pub graph: Vec<Vec<usize>>,
    pub capacity: CapacityMatrix,
    pub node_count: usize,
}

/// The capacity matrix holds exactly the built capacities for the first
/// `upto` rows and zeroes above.
spec fn caps_built_upto(px: Seq<u8>, w: int, h: int, m: CapacityMatrix, upto: int) -> bool {
    forall|a: int, v: int|
        0 <= a < m.n && 0 <= v < m.n
            ==> #[trigger] m.cap(a, v) == (if a < upto {
                built_cap(px, w, h, a, v)
            } else {
                0int
            })
}

/// Each already-built adjacency list holds exactly the targets with a
/// positive built capacity.
spec fn adj_built(px: Seq<u8>, w: int, h: int, g: Seq<Vec<usize>>, n2: int) -> bool {
    &&& forall|a: int, j: int|
        0 <= a < g.len() && 0 <= j < g[a]@.len() ==> ((#[trigger] g[a]@[j]) as int) < n2
    &&& forall|a: int, v: int|
        0 <= a < g.len() && 0 <= v < n2
            ==> ((#[trigger] adj(g, a, v)) <==> built_cap(px, w, h, a, v) > 0)
}

/// The dimensions ask for more nodes than the machine can address: node ids
/// must fit the parent array's signed entries, and the dense matrix must fit
/// a `usize`.
pub open spec fn dims_too_large(w: int, h: int) -> bool {
    ||| w * h + 2 > i32::MAX as int
    ||| (w * h + 2) * (w * h + 2) > usize::MAX as int
}

/// Builds the flow network of an intensity grid: pixel nodes with
/// similarity-weighted edges to their 8 in-bounds neighbours, the source
/// wired to the whole top row and the whole bottom row wired to the sink.
///
/// Fails with `InvalidDimensions` exactly when `width` or `height` is zero,
/// and with `ArithmeticOverflow` exactly when the node count or the dense
/// matrix would not fit the machine's integer ranges.
#[verifier::rlimit(100)]
pub fn build_network(width: usize, height: usize, pixels: &Vec<u8>) -> (r: Result<
    FlowNetwork,
    BuildError,
>)
    requires
        pixels@.len() == width * height,
    ensures
        r is Err <==> (width == 0 || height == 0 || dims_too_large(width as int,
            height as int)),
        (width == 0 || height == 0) ==> r == Err::<FlowNetwork, BuildError>(
            BuildError::InvalidDimensions),
        (width > 0 && height > 0 && dims_too_large(width as int, height as int))
            ==> r == Err::<FlowNetwork, BuildError>(BuildError::ArithmeticOverflow),
        r is Ok ==> {
            let net = r.unwrap();
            &&& net.node_count == width * height
            &&& net.capacity.wf()
            &&& net.capacity.n == net.node_count + 2
            &&& net.capacity.n as int <= i32::MAX as int
            &&& graph_wf(net.graph@, net.capacity.n as int)
            &&& nonneg(net.capacity)
            &&& pair_sums_bounded(net.capacity)
            &&& forall|u: int, v: int|
                0 <= u < net.capacity.n && 0 <= v < net.capacity.n
                    ==> #[trigger] net.capacity.cap(u, v) == built_cap(pixels@,
                        width as int, height as int, u, v)
            &&& forall|u: int, v: int|
                0 <= u < net.capacity.n && 0 <= v < net.capacity.n
                    ==> ((#[trigger] adj(net.graph@, u, v)) <==> built_cap(pixels@,
                        width as int, height as int, u, v) > 0)
            &&& net.graph@.len() == net.capacity.n
            &&& net.graph@[0]@.len() == width
            &&& forall|j: int| 0 <= j < width
                ==> ((#[trigger] net.graph@[0]@[j]) as int) == j + 1
            &&& forall|r: int, c: int|
                0 <= r < height as int && 0 <= c < width as int
                    ==> list_matches((#[trigger] net.graph@[node_id(r, c, width as int)])@,
                        pixel_neighbors(width as int, height as int, r, c))
            &&& net.graph@[width * height + 1]@.len() == 0
        },
{
    let ghost w = width as int;
    let ghost h = height as int;
    let ghost px = pixels@;

    if width == 0 || height == 0 {
        return Err(BuildError::InvalidDimensions);
    }
    let n = match width.checked_mul(height) {
        None => {
            return Err(BuildError::ArithmeticOverflow);
        },
        Some(n) => n,
    };
    if n > (i32::MAX as usize) - 2 {
        return Err(BuildError::ArithmeticOverflow);
    }
    let total = n + 2;
    let mut capacity = match CapacityMatrix::new(total) {
        None => {
            return Err(BuildError::ArithmeticOverflow);
        },
        Some(m) => m,
    };
    proof {
        assert(!dims_too_large(w, h));
        assert(w <= w * h) by (nonlinear_arith)
            requires w >= 1 && h >= 1,
        ;
        assert(caps_built_upto(px, w, h, capacity, 0));
    }

    let mut graph: Vec<Vec<usize>> = Vec::new();
    let mut srow: Vec<usize> = Vec::new();
    let mut c: usize = 0;
    while c < width
        invariant
            width >= 1,
            height >= 1,
            n == width * height,
            width <= n,
            total == n + 2,
            capacity.wf(),
            capacity.n == total,
            c <= width,
            srow@.len() == c,
            forall|j: int| 0 <= j < c ==> (#[trigger] srow@[j]) as int == j + 1,
            w == width as int,
            h == height as int,
            px == pixels@,
            forall|a: int, v: int|
                0 <= a < total && 0 <= v < total
                    ==> #[trigger] capacity.cap(a, v) == (if a == 0 && 1 <= v <= c {
                        255int
                    } else {
                        0int
                    }),
        decreases width - c,
    {
        srow.push(c + 1);
        capacity.put(0, c + 1, EDGE_THRESHOLD);
        c = c + 1;
    }
    graph.push(srow);
    proof {
        assert(caps_built_upto(px, w, h, capacity, 1));
        assert forall|a: int, v: int|
            0 <= a < graph@.len() && 0 <= v < total as int
            implies ((#[trigger] adj(graph@, a, v)) <==> built_cap(px, w, h, a, v) > 0) by {
            if 1 <= v <= w {
                assert(graph@[0]@[v - 1] as int == v);
            }
        }
        assert(adj_built(px, w, h, graph@, total as int));
    }

    let mut row: usize = 0;
    while row < height
        invariant
            width >= 1,
            height >= 1,
            n == width * height,
            total == n + 2,
            pixels@.len() == n,
            capacity.wf(),
            capacity.n == total,
            row <= height,
            graph@.len() as int == (row as int) * w + 1,
            graph@[0]@.len() == width,
            forall|j: int| 0 <= j < width ==> ((#[trigger] graph@[0]@[j]) as int) == j + 1,
            forall|r2: int, c2: int|
                0 <= r2 < h && 0 <= c2 < w && node_id(r2, c2, w) < graph@.len()
                    ==> list_matches((#[trigger] graph@[node_id(r2, c2, w)])@,
                        pixel_neighbors(w, h, r2, c2)),
            w == width as int,
            h == height as int,
            px == pixels@,
            caps_built_upto(px, w, h, capacity, graph@.len() as int),
            adj_built(px, w, h, graph@, total as int),
        decreases height - row,
    {
        let mut col: usize = 0;
        while col < width
            invariant
                width >= 1,
                height >= 1,
                n == width * height,
                total == n + 2,
                pixels@.len() == n,
                capacity.wf(),
                capacity.n == total,
                row < height,
                col <= width,
                graph@.len() as int == node_id(row as int, col as int, w),
                graph@[0]@.len() == width,
                forall|j: int| 0 <= j < width
                    ==> ((#[trigger] graph@[0]@[j]) as int) == j + 1,
                forall|r2: int, c2: int|
                    0 <= r2 < h && 0 <= c2 < w && node_id(r2, c2, w) < graph@.len()
                        ==> list_matches((#[trigger] graph@[node_id(r2, c2, w)])@,
                            pixel_neighbors(w, h, r2, c2)),
                w == width as int,
                h == height as int,
                px == pixels@,
                caps_built_upto(px, w, h, capacity, graph@.len() as int),
                adj_built(px, w, h, graph@, total as int),
            decreases width - col,
        {
            proof {
                lemma_node_in_range(w, h, row as int, col as int);
            }
            let ghost g0 = graph@;
            let ghost u = node_id(row as int, col as int, w);
            let nbrs = add_pixel_edges(row, col, width, height, pixels, &mut capacity);
            graph.push(nbrs);
            proof {
                assert(caps_built_upto(px, w, h, capacity, graph@.len() as int));
                assert forall|a: int, v: int|
                    0 <= a < graph@.len() && 0 <= v < total as int
                    implies ((#[trigger] adj(graph@, a, v)) <==> built_cap(px, w, h, a, v)
                        > 0) by {
                    if a < g0.len() {
                        assert(graph@[a] == g0[a]);
                        assert(adj(graph@, a, v) == adj(g0, a, v)) by {
                            if adj(g0, a, v) {
                                let j = choose|j: int| 0 <= j < g0[a]@.len()
                                    && (#[trigger] g0[a]@[j]) as int == v;
                                assert(graph@[a]@[j] as int == v);
                            }
                            if adj(graph@, a, v) {
                                let j = choose|j: int| 0 <= j < graph@[a]@.len()
                                    && (#[trigger] graph@[a]@[j]) as int == v;
                                assert(g0[a]@[j] as int == v);
                            }
                        }
                    } else {
                        assert(a == u);
                        assert(graph@[a] == nbrs);
                        if adj(graph@, a, v) {
                            let j = choose|j: int| 0 <= j < graph@[a]@.len()
                                && (#[trigger] graph@[a]@[j]) as int == v;
                            assert(nbrs@[j] as int == v);
                            assert(built_cap(px, w, h, u, v) > 0);
                        }
                        if built_cap(px, w, h, a, v) > 0 {
                            let j = choose|j: int| 0 <= j < nbrs@.len()
                                && (#[trigger] nbrs@[j]) as int == v;
                            assert(graph@[a]@[j] as int == v);
                        }
                    }
                }
                assert(adj_built(px, w, h, graph@, total as int));
                assert(graph@[0] == g0[0]);
                assert forall|r2: int, c2: int|
                    0 <= r2 < h && 0 <= c2 < w && node_id(r2, c2, w) < graph@.len()
                    implies list_matches((#[trigger] graph@[node_id(r2, c2, w)])@,
                        pixel_neighbors(w, h, r2, c2)) by {
                    let id = node_id(r2, c2, w);
                    lemma_node_in_range(w, h, r2, c2);
                    if id < g0.len() {
                        assert(graph@[id] == g0[id]);
                    } else {
                        assert(id == u);
                        lemma_node_coords(w, r2, c2);
                        lemma_node_coords(w, row as int, col as int);
                        assert(r2 == row as int && c2 == col as int);
                        assert(graph@[id] == nbrs);
                    }
                }
            }
            col = col + 1;
        }
        proof {
            assert((row as int + 1) * w == (row as int) * w + w) by (nonlinear_arith);
        }
        row = row + 1;
    }

    let ghost gpre = graph@;
    graph.push(Vec::new());
    proof {
        assert(h * w == w * h) by (nonlinear_arith);
        assert(graph@.len() == total);
        let g = graph@;
        assert forall|a: int, v: int|
            0 <= a < g.len() && 0 <= v < total as int
            implies ((#[trigger] adj(g, a, v)) <==> built_cap(px, w, h, a, v) > 0) by {
            if a < g.len() - 1 {
                assert(g[a] == gpre[a]);
                if adj(gpre, a, v) {
                    let j = choose|j: int| 0 <= j < gpre[a]@.len()
                        && (#[trigger] gpre[a]@[j]) as int == v;
                    assert(g[a]@[j] as int == v);
                }
                if adj(g, a, v) {
                    let j = choose|j: int| 0 <= j < g[a]@.len()
                        && (#[trigger] g[a]@[j]) as int == v;
                    assert(gpre[a]@[j] as int == v);
                }
            } else {
                assert(g[a]@.len() == 0);
                if adj(g, a, v) {
                    let j = choose|j: int| 0 <= j < g[a]@.len()
                        && (#[trigger] g[a]@[j]) as int == v;
                }
            }
        }
        assert forall|u: int, v: int|
            0 <= u < total && 0 <= v < total
            implies #[trigger] capacity.cap(u, v) == built_cap(px, w, h, u, v) by {
            lemma_built_cap_bounds(px, w, h, u, v);
        }
        assert(graph@[0] == gpre[0]);
        assert forall|r2: int, c2: int| 0 <= r2 < h && 0 <= c2 < w
            implies list_matches((#[trigger] graph@[node_id(r2, c2, w)])@,
                pixel_neighbors(w, h, r2, c2)) by {
            lemma_node_in_range(w, h, r2, c2);
            assert(graph@[node_id(r2, c2, w)] == gpre[node_id(r2, c2, w)]);
        }
        assert(graph@[w * h + 1]@.len() == 0);
        assert(nonneg(capacity)) by {
            assert forall|u: int, v: int|
                capacity.valid(u) && capacity.valid(v)
                implies #[trigger] capacity.cap(u, v) >= 0 by {
                lemma_built_cap_bounds(px, w, h, u, v);
            }
        }
        assert(pair_sums_bounded(capacity)) by {
            assert forall|u: int, v: int|
                capacity.valid(u) && capacity.valid(v)
                implies #[trigger] capacity.cap(u, v) + capacity.cap(v, u)
                    <= i32::MAX as int by {
                lemma_built_cap_bounds(px, w, h, u, v);
                lemma_built_cap_bounds(px, w, h, v, u);
            }
        }
        assert(graph_wf(graph@, total as int));
    }
    Ok(FlowNetwork { graph, capacity, node_count: n })
}

} // verus!

use mincut::{
    build_network, calculate_max_flow, capacity_function, reachable_mask, segment,
    BuildError, CapacityMatrix,
};

/// Builds an adjacency structure and capacity matrix for a small directed
/// graph: every edge also enters the reverse adjacency list (with zero
/// capacity) so that residual flow can be cancelled.
fn make_graph(node_total: usize, edges: &[(usize, usize, i32)]) -> (Vec<Vec<usize>>, CapacityMatrix) {
    let mut graph: Vec<Vec<usize>> = vec![Vec::new(); node_total];
    let mut capacity = CapacityMatrix::new(node_total).unwrap();
    for &(u, v, c) in edges {
        graph[u].push(v);
        graph[v].push(u);
        capacity.put(u, v, c);
    }
    (graph, capacity)
}

const TEXTBOOK_EDGES: [(usize, usize, i32); 9] = [
    (0, 1, 7),
    (0, 4, 4),
    (1, 2, 5),
    (1, 3, 3),
    (2, 5, 8),
    (3, 2, 3),
    (3, 5, 5),
    (4, 1, 3),
    (4, 3, 2),
];

fn brute_force_min_cut(node_total: usize, source: usize, sink: usize, edges: &[(usize, usize, i32)]) -> i64 {
    let mut best = i64::MAX;
    for bits in 0..(1u32 << node_total) {
        if bits & (1 << source) == 0 || bits & (1 << sink) != 0 {
            continue;
        }
        let mut cut: i64 = 0;
        for &(u, v, c) in edges {
            if bits & (1 << u) != 0 && bits & (1 << v) == 0 {
                cut += c as i64;
            }
        }
        if cut < best {
            best = cut;
        }
    }
    best
}

#[test]
fn capacity_function_equal_pixels() {
    assert_eq!(capacity_function(0, 0), 255);
    assert_eq!(capacity_function(100, 100), 255);
    assert_eq!(capacity_function(255, 255), 255);
}

#[test]
fn capacity_function_inverse_of_difference() {
    assert_eq!(capacity_function(10, 11), 255);
    assert_eq!(capacity_function(11, 10), 255);
    assert_eq!(capacity_function(100, 150), 5);
    assert_eq!(capacity_function(150, 100), 5);
    assert_eq!(capacity_function(10, 250), 1);
    assert_eq!(capacity_function(0, 255), 1);
}

#[test]
fn textbook_graph_max_flow_value() {
    let (graph, mut capacity) = make_graph(6, &TEXTBOOK_EDGES);
    let res = calculate_max_flow(4, 0, 5, &graph, &mut capacity);
    // The minimum cut of this graph is {0, 1, 4}, cutting 1->2 (5), 1->3 (3)
    // and 4->3 (2), so the maximum flow is 10.
    assert_eq!(res.total_flow, 10);
    assert!(res.mask[0]);
    assert!(!res.mask[5]);
}

#[test]
fn textbook_graph_flow_equals_brute_force_min_cut() {
    let (graph, mut capacity) = make_graph(6, &TEXTBOOK_EDGES);
    let res = calculate_max_flow(4, 0, 5, &graph, &mut capacity);
    let best_cut = brute_force_min_cut(6, 0, 5, &TEXTBOOK_EDGES);
    assert_eq!(best_cut, 10);
    assert_eq!(res.total_flow, best_cut);
    // The cut the mask describes achieves the minimum.
    let mut mask_cut: i64 = 0;
    for &(u, v, c) in &TEXTBOOK_EDGES {
        if res.mask[u] && !res.mask[v] {
            mask_cut += c as i64;
        }
    }
    assert_eq!(mask_cut, res.total_flow);
}

#[test]
fn textbook_graph_flow_conservation() {
    let (graph, mut capacity) = make_graph(6, &TEXTBOOK_EDGES);
    let orig = capacity.data.clone();
    let res = calculate_max_flow(4, 0, 5, &graph, &mut capacity);
    // Net flow out of every non-terminal node is zero: the outgoing residual
    // sum of each interior row is unchanged.
    for w in 1..=4usize {
        let mut orig_sum: i64 = 0;
        let mut fin_sum: i64 = 0;
        for v in 0..6usize {
            orig_sum += orig[w * 6 + v] as i64;
            fin_sum += capacity.get(w, v) as i64;
        }
        assert_eq!(orig_sum, fin_sum);
    }
    // The source lost exactly the total flow; the sink gained it.
    let mut src_orig: i64 = 0;
    let mut src_fin: i64 = 0;
    let mut snk_orig: i64 = 0;
    let mut snk_fin: i64 = 0;
    for v in 0..6usize {
        src_orig += orig[v] as i64;
        src_fin += capacity.get(0, v) as i64;
        snk_orig += orig[5 * 6 + v] as i64;
        snk_fin += capacity.get(5, v) as i64;
    }
    assert_eq!(src_orig - src_fin, res.total_flow);
    assert_eq!(snk_fin - snk_orig, res.total_flow);
}

#[test]
fn residual_capacities_stay_nonnegative() {
    let (graph, mut capacity) = make_graph(6, &TEXTBOOK_EDGES);
    let _ = calculate_max_flow(4, 0, 5, &graph, &mut capacity);
    for u in 0..6usize {
        for v in 0..6usize {
            assert!(capacity.get(u, v) >= 0);
        }
    }
}

#[test]
fn reachability_pass_is_idempotent() {
    let (graph, mut capacity) = make_graph(6, &TEXTBOOK_EDGES);
    let _ = calculate_max_flow(4, 0, 5, &graph, &mut capacity);
    let first = reachable_mask(0, &graph, &capacity);
    let second = reachable_mask(0, &graph, &capacity);
    assert_eq!(first, second);
}

#[test]
fn augmentation_count_stays_within_bounds() {
    let (graph, mut capacity) = make_graph(6, &TEXTBOOK_EDGES);
    let res = calculate_max_flow(4, 0, 5, &graph, &mut capacity);
    // Each search pushes at least a unit, so at most total_flow searches;
    // the Edmonds-Karp bound of |V| * |E| holds comfortably.
    assert!(res.augmentations >= 1);
    assert!(res.augmentations as i64 <= res.total_flow);
    assert!(res.augmentations <= 6 * 9);
}

#[test]
fn flat_image_capacities() {
    let pixels = vec![100u8; 4];
    let net = build_network(2, 2, &pixels).unwrap();
    assert_eq!(net.node_count, 4);
    // Every cross-pixel edge carries the maximum weight.
    for u in 1..=4usize {
        for v in 1..=4usize {
            if u != v {
                assert_eq!(net.capacity.get(u, v), 255);
            }
        }
    }
    // Source feeds the top row, the bottom row feeds the sink.
    assert_eq!(net.capacity.get(0, 1), 255);
    assert_eq!(net.capacity.get(0, 2), 255);
    assert_eq!(net.capacity.get(3, 5), 255);
    assert_eq!(net.capacity.get(4, 5), 255);
    assert_eq!(net.capacity.get(0, 3), 0);
    assert_eq!(net.capacity.get(1, 5), 0);
}

#[test]
fn flat_image_saturates_terminal_edges() {
    let pixels = vec![100u8; 4];
    let net = build_network(2, 2, &pixels).unwrap();
    let mut capacity = net.capacity;
    let res = calculate_max_flow(net.node_count, 0, net.node_count + 1, &net.graph, &mut capacity);
    // Both terminal rows carry 2 * 255, so the network saturates at 510 and
    // the direct source edges form a minimum cut: after saturation only the
    // source itself stays reachable.
    assert_eq!(res.total_flow, 510);
    assert!(res.mask[0]);
    for v in 1..=5usize {
        assert!(!res.mask[v]);
    }
}

#[test]
fn intensity_step_separates_column() {
    // A 1-wide, 3-tall strip: two dark pixels above one bright pixel. The
    // only weak edge is across the intensity step, so the cut separates the
    // dark pair (foreground) from the bright pixel.
    let pixels = vec![10u8, 10u8, 250u8];
    let mask = segment(1, 3, &pixels).unwrap();
    assert_eq!(mask.len(), 3);
    assert!(mask[0]);
    assert!(mask[1]);
    assert!(!mask[2]);
}

#[test]
fn single_row_and_single_column_do_not_crash() {
    let row = vec![10u8, 10u8, 250u8];
    let mask_row = segment(3, 1, &row).unwrap();
    assert_eq!(mask_row.len(), 3);
    let column = vec![7u8];
    let mask_one = segment(1, 1, &column).unwrap();
    assert_eq!(mask_one.len(), 1);
}

#[test]
fn zero_dimensions_are_rejected() {
    let empty: Vec<u8> = Vec::new();
    assert_eq!(segment(0, 3, &empty), Err(BuildError::InvalidDimensions));
    assert_eq!(segment(3, 0, &empty), Err(BuildError::InvalidDimensions));
    assert_eq!(segment(0, 0, &empty), Err(BuildError::InvalidDimensions));
    assert!(matches!(build_network(0, 1, &empty), Err(BuildError::InvalidDimensions)));
}

#[test]
fn bfs_finds_shortest_augmenting_path_bottleneck() {
    let (graph, capacity) = make_graph(6, &TEXTBOOK_EDGES);
    let mut parent = vec![0i32; 6];
    let flow = mincut::bfs(0, 5, &mut parent, &graph, &capacity);
    // The first search takes a shortest path (three hops); every such path
    // here has bottleneck 5: 0 -> 1 -> 2 -> 5.
    assert_eq!(flow, 5);
    assert_eq!(parent[0], -2);
    assert_eq!(parent[5], 2);
    assert_eq!(parent[2], 1);
    assert_eq!(parent[1], 0);
}

#[test]
fn exhausted_network_reports_no_path() {
    let (graph, mut capacity) = make_graph(6, &TEXTBOOK_EDGES);
    let _ = calculate_max_flow(4, 0, 5, &graph, &mut capacity);
    let mut parent = vec![0i32; 6];
    let flow = mincut::bfs(0, 5, &mut parent, &graph, &capacity);
    assert_eq!(flow, 0);
}

use mpl_experiments::topology::{
    compute_skeleton2_metrics, compute_topology_metrics, connected_components_undirected,
    strongly_connected_components, weakly_connected_components, Skeleton2Metrics,
};

fn pairs(keys: &[(usize, usize)]) -> Vec<((usize, usize), u64)> {
    keys.iter().map(|&k| (k, 1u64)).collect()
}

#[test]
fn components_of_two_paths_and_an_isolated_vertex() {
    // 0-1-2, 3-4, 5 alone
    let adj = vec![vec![1], vec![0, 2], vec![1], vec![4], vec![3], vec![]];
    assert_eq!(connected_components_undirected(&adj), 3);
    assert_eq!(connected_components_undirected(&[]), 0);
}

#[test]
fn components_count_lowest_unreached_vertices_on_directed_lists() {
    // 1 -> 0 only: vertex 0 is not reached from below, vertex 1 neither.
    let adj = vec![vec![], vec![0]];
    assert_eq!(connected_components_undirected(&adj), 2);
    // 0 -> 1: vertex 1 is reached from 0.
    let adj = vec![vec![1], vec![]];
    assert_eq!(connected_components_undirected(&adj), 1);
}

#[test]
fn skeleton_of_a_triangle_with_a_tail() {
    // triangle 0,1,2 plus edge 2-3; (3,3) is a self loop, (4,0) is out of range.
    let p = pairs(&[(0, 1), (1, 0), (1, 2), (2, 0), (2, 3), (3, 3), (4, 0)]);
    let t = vec![((0usize, 1usize, 2usize), 5u64), ((1, 2, 3), 7), ((0, 0, 1), 2)];
    let m = compute_skeleton2_metrics(4, &p, &t);
    assert_eq!(
        m,
        Skeleton2Metrics {
            n_vertices: 4,
            n_edges_undirected: 4,
            triangles: 1,
            clustering_num: 3,
            clustering_den: 5,
            beta1_est: 1,
            triplets_supported_by_triangles_num: 5,
            triplets_supported_by_triangles_den: 14,
        }
    );
}

#[test]
fn skeleton_without_wedges_reports_zero_over_zero() {
    let p = pairs(&[(0, 1)]);
    let m = compute_skeleton2_metrics(3, &p, &[]);
    assert_eq!(m.n_edges_undirected, 1);
    assert_eq!(m.triangles, 0);
    assert_eq!((m.clustering_num, m.clustering_den), (0, 0));
    // 1 edge - 3 vertices + 2 components
    assert_eq!(m.beta1_est, 0);
    assert_eq!(m.triplets_supported_by_triangles_den, 0);
    assert_eq!(m.triplets_supported_by_triangles_num, 0);
}

#[test]
fn skeleton_of_complete_graph_on_four() {
    let mut keys = Vec::new();
    for a in 0..4 {
        for b in 0..4 {
            if a != b {
                keys.push((a, b));
            }
        }
    }
    let m = compute_skeleton2_metrics(4, &pairs(&keys), &[]);
    assert_eq!(m.n_edges_undirected, 6);
    assert_eq!(m.triangles, 4);
    assert_eq!(m.clustering_den, 12);
    assert_eq!(m.clustering_num, 12);
    assert_eq!(m.beta1_est, 3);
}

#[test]
fn topology_of_a_directed_cycle_and_a_chain() {
    // cycle 0->1->2->0, chain 3->4
    let p = pairs(&[(0, 1), (1, 2), (2, 0), (3, 4)]);
    let t = compute_topology_metrics(5, &p, 9);
    assert_eq!(t.n_vertices, 5);
    assert_eq!(t.n_edges, 4);
    assert_eq!(t.n_active_words, 9);
    assert_eq!(t.weakly_connected_components, 2);
    assert_eq!(t.strongly_connected_components, 3);
    assert_eq!(t.max_out_degree, 1);
    assert_eq!((t.density_num, t.density_den), (4, 25));
    assert_eq!((t.avg_out_degree_num, t.avg_out_degree_den), (4, 5));
}

#[test]
fn topology_of_the_empty_graph() {
    let t = compute_topology_metrics(0, &[], 0);
    assert_eq!(t.weakly_connected_components, 0);
    assert_eq!(t.strongly_connected_components, 0);
    assert_eq!(t.density_den, 1);
    assert_eq!(t.avg_out_degree_den, 1);
}

#[test]
fn weak_and_strong_components() {
    let p = pairs(&[(0, 1), (1, 0), (1, 2)]);
    assert_eq!(weakly_connected_components(4, &p), 2);
    let adj = vec![vec![1], vec![0, 2], vec![], vec![]];
    let rev = vec![vec![1], vec![0], vec![1], vec![]];
    assert_eq!(strongly_connected_components(4, &adj, &rev), 3);
}

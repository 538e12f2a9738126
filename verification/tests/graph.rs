use dsa::graph::Graph;
use dsa::DsaError;

fn sample_graph() -> Graph {
    // The four-vertex graph with a self-loop on vertex 3.
    let mut g = Graph::new(4);
    g.add_edge(0, 1, 2).unwrap();
    g.add_edge(0, 2, 2).unwrap();
    g.add_edge(1, 2, 1).unwrap();
    g.add_edge(1, 3, 1).unwrap();
    g.add_edge(2, 0, 1).unwrap();
    g.add_edge(2, 3, 2).unwrap();
    g.add_edge(3, 3, 2).unwrap();
    g
}

fn nine_vertex_graph() -> Graph {
    let mut g = Graph::new(9);
    g.add_edge(0, 1, 4).unwrap();
    g.add_edge(0, 7, 8).unwrap();
    g.add_edge(1, 2, 8).unwrap();
    g.add_edge(1, 7, 11).unwrap();
    g.add_edge(2, 3, 7).unwrap();
    g.add_edge(2, 8, 2).unwrap();
    g.add_edge(2, 5, 4).unwrap();
    g.add_edge(3, 4, 9).unwrap();
    g.add_edge(3, 5, 14).unwrap();
    g.add_edge(4, 5, 10).unwrap();
    g.add_edge(5, 6, 2).unwrap();
    g.add_edge(6, 7, 1).unwrap();
    g.add_edge(6, 8, 6).unwrap();
    g.add_edge(7, 8, 7).unwrap();
    g
}

#[test]
fn zero_vertex_graph_rejects_every_operation() {
    let mut g = Graph::new(0);
    assert_eq!(g.add_edge(0, 0, 1), Err(DsaError::OutOfRange));
    assert_eq!(g.djk_spt(0, 0), Err(DsaError::OutOfRange));
    assert_eq!(g.djk_simple(0, 0), Err(DsaError::OutOfRange));
    assert_eq!(g.bfs_spt(0, 0), Err(DsaError::OutOfRange));
    assert_eq!(g.bfs_traverse(0), Err(DsaError::OutOfRange));
}

#[test]
fn default_graph_is_empty() {
    let g = Graph::default();
    assert_eq!(g.size, 0);
    assert_eq!(g.nodes.len(), 0);
}

#[test]
fn new_graph_has_no_edges() {
    let g = Graph::new(3);
    assert_eq!(g.size, 3);
    assert_eq!(g.nodes.len(), 3);
    for row in &g.nodes {
        assert_eq!(row.len(), 3);
        for slot in row {
            assert!(slot.is_none());
        }
    }
}

#[test]
fn add_edge_writes_the_slot() {
    let mut g = Graph::new(3);
    g.add_edge(0, 2, 7).unwrap();
    assert_eq!(g.nodes[0][2], Some((0, 2, 7)));
    assert_eq!(g.nodes[2][0], None);
}

#[test]
fn add_edge_overwrites() {
    let mut g = Graph::new(3);
    g.add_edge(0, 2, 7).unwrap();
    g.add_edge(0, 2, 9).unwrap();
    assert_eq!(g.nodes[0][2], Some((0, 2, 9)));
}

#[test]
fn add_edge_twice_is_idempotent() {
    let mut once = Graph::new(4);
    once.add_edge(1, 2, 5).unwrap();
    let mut twice = Graph::new(4);
    twice.add_edge(1, 2, 5).unwrap();
    twice.add_edge(1, 2, 5).unwrap();
    assert_eq!(once.nodes, twice.nodes);
}

#[test]
fn add_edge_out_of_range_fails_and_leaves_graph_unchanged() {
    let mut g = Graph::new(3);
    let before = g.nodes.clone();
    assert_eq!(g.add_edge(3, 0, 1), Err(DsaError::OutOfRange));
    assert_eq!(g.add_edge(0, 3, 1), Err(DsaError::OutOfRange));
    assert_eq!(g.nodes, before);
}

#[test]
fn djk_spt_nine_vertex_scenario() {
    // The graph is directed: an edge added as (u, v, w) can only be walked
    // from u to v. Vertex 4 is reached through 0,1,2,3,4 (4+8+7+9), vertex 5
    // through 0,1,2,5 (4+8+4), vertex 6 through 5 (16+2), and vertex 8
    // through 2 (12+2).
    let g = nine_vertex_graph();
    let d = g.djk_spt(0, 3).unwrap();
    let expected: Vec<Option<usize>> = vec![
        Some(0),
        Some(4),
        Some(12),
        Some(19),
        Some(28),
        Some(16),
        Some(18),
        Some(8),
        Some(14),
    ];
    assert_eq!(d, expected);
}

#[test]
fn djk_spt_small_graph() {
    let g = sample_graph();
    let d = g.djk_spt(0, 3).unwrap();
    assert_eq!(d, vec![Some(0), Some(2), Some(2), Some(3)]);
}

#[test]
fn djk_spt_source_distance_is_zero() {
    let g = nine_vertex_graph();
    for src in 0..9 {
        let d = g.djk_spt(src, 0).unwrap();
        assert_eq!(d[src], Some(0));
    }
}

#[test]
fn djk_spt_unreachable_is_none() {
    let mut g = Graph::new(3);
    g.add_edge(0, 1, 1).unwrap();
    let d = g.djk_spt(0, 2).unwrap();
    assert_eq!(d, vec![Some(0), Some(1), None]);
}

#[test]
fn djk_spt_twice_gives_identical_results() {
    let g = nine_vertex_graph();
    let d1 = g.djk_spt(0, 3).unwrap();
    let d2 = g.djk_spt(0, 3).unwrap();
    assert_eq!(d1, d2);
}

#[test]
fn djk_spt_out_of_range_source() {
    let g = Graph::new(3);
    assert_eq!(g.djk_spt(3, 0), Err(DsaError::OutOfRange));
}

#[test]
fn djk_spt_prefers_longer_cheaper_path() {
    // Direct edge of weight 10 against a two-hop path of weight 3.
    let mut g = Graph::new(3);
    g.add_edge(0, 2, 10).unwrap();
    g.add_edge(0, 1, 1).unwrap();
    g.add_edge(1, 2, 2).unwrap();
    let d = g.djk_spt(0, 2).unwrap();
    assert_eq!(d[2], Some(3));
}

#[test]
fn djk_simple_takes_only_the_minimum_edge() {
    // Row 0 holds two edges of weights 2 and 2: the first slot wins the
    // tie, so vertex 1 is relaxed to 2; row 1's minimum edge then relaxes
    // vertex 2 to 3; row 2's minimum edge (2,0,1) cannot improve the
    // source; vertex 3 is never reached.
    let g = sample_graph();
    let d = g.djk_simple(0, 3).unwrap();
    assert_eq!(d, vec![Some(0), Some(2), Some(3), None]);
}

#[test]
fn djk_simple_tie_prefers_first_slot() {
    let mut g = Graph::new(3);
    g.add_edge(0, 1, 5).unwrap();
    g.add_edge(0, 2, 5).unwrap();
    let d = g.djk_simple(0, 2).unwrap();
    assert_eq!(d, vec![Some(0), Some(5), None]);
}

#[test]
fn djk_simple_out_of_range_source() {
    let g = sample_graph();
    assert_eq!(g.djk_simple(4, 0), Err(DsaError::OutOfRange));
}

#[test]
fn bfs_spt_scans_rows_in_index_order() {
    let mut g = sample_graph();
    let d = g.bfs_spt(0, 3).unwrap();
    assert_eq!(d, vec![Some(0), Some(2), Some(2), Some(3)]);
}

#[test]
fn bfs_spt_consumes_the_adjacency_rows() {
    let mut g = sample_graph();
    g.bfs_spt(0, 3).unwrap();
    assert_eq!(g.nodes.len(), 0);
    assert_eq!(g.size, 4);
}

#[test]
fn bfs_spt_misses_back_edges() {
    // Rows are scanned in index order, not by connectivity: row 1 is
    // scanned before vertex 1 is reached from row 2, so the edge from 1 to
    // 0 is never relaxed and vertex 0 stays unreached, although a true
    // search from 2 would find it at distance 2.
    let mut g = Graph::new(3);
    g.add_edge(1, 0, 1).unwrap();
    g.add_edge(2, 1, 1).unwrap();
    let d = g.bfs_spt(2, 0).unwrap();
    assert_eq!(d, vec![None, Some(1), Some(0)]);
}

#[test]
fn bfs_spt_relaxes_the_whole_row_past_dst() {
    // Reaching `dst` does not cut a row's scan short: the edge to vertex 2
    // is still relaxed after the edge to the destination vertex 1.
    let mut g = Graph::new(3);
    g.add_edge(0, 1, 1).unwrap();
    g.add_edge(0, 2, 1).unwrap();
    let d = g.bfs_spt(0, 1).unwrap();
    assert_eq!(d, vec![Some(0), Some(1), Some(1)]);
}

#[test]
fn bfs_spt_out_of_range_source() {
    let mut g = Graph::new(2);
    assert_eq!(g.bfs_spt(2, 0), Err(DsaError::OutOfRange));
    assert_eq!(g.nodes.len(), 2);
}

#[test]
fn bfs_traverse_threshold_keeps_only_high_sources() {
    let g = sample_graph();
    let visited = g.bfs_traverse(3).unwrap();
    assert_eq!(visited, vec![3]);
}

#[test]
fn bfs_traverse_from_zero_collects_all_targets() {
    let g = sample_graph();
    let visited = g.bfs_traverse(0).unwrap();
    assert_eq!(visited, vec![0, 1, 2, 3]);
}

#[test]
fn bfs_traverse_start_is_first_even_when_isolated() {
    let mut g = Graph::new(3);
    g.add_edge(1, 2, 1).unwrap();
    let visited = g.bfs_traverse(0).unwrap();
    assert_eq!(visited, vec![0, 2]);
}

#[test]
fn bfs_traverse_out_of_range_start() {
    let g = Graph::new(3);
    assert_eq!(g.bfs_traverse(3), Err(DsaError::OutOfRange));
}

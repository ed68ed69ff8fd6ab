use hypergraph_rewrite::hypergraph::Hypergraph;

fn occurrences(hg: &Hypergraph, node: usize) -> usize {
    let mut count = 0;
    for edge in hg.edges_slice() {
        for &n in edge {
            if n == node {
                count += 1;
            }
        }
    }
    count
}

fn assert_degrees_consistent(hg: &Hypergraph) {
    let degrees = hg.degrees().clone();
    for (n, &d) in degrees.iter().enumerate() {
        assert_eq!(d, occurrences(hg, n), "degree of node {} out of sync", n);
    }
}

#[test]
fn scenario_single_node_two_self_edges() {
    let mut hg = Hypergraph::new();
    let id = hg.add_node(0);
    assert_eq!(id, 1);
    hg.add_hyperedge(vec![id, id]);
    hg.add_hyperedge(vec![id, id]);
    assert_eq!(hg.node_count(), 1);
    assert_eq!(hg.edge_count(), 2);
    // Each self-relationship edge references the node twice, so two of them
    // give the node degree 4.
    assert_eq!(hg.max_degree(), 4);
    assert_eq!(hg.max_degree_node(), 1);
    assert_eq!(hg.active_nodes(), vec![1]);
    assert_degrees_consistent(&hg);
}

#[test]
fn scenario_insert_grows_degree_table() {
    let mut hg = Hypergraph::new();
    assert_eq!(hg.degrees().len(), 0);
    hg.add_hyperedge(vec![5, 7]);
    assert!(hg.degrees().len() >= 8);
    assert_eq!(hg.degrees()[5], 1);
    assert_eq!(hg.degrees()[7], 1);
    assert_eq!(hg.get_max_node_id(), 7);
    assert_eq!(hg.node_count(), 2);
    assert_degrees_consistent(&hg);
}

#[test]
fn scenario_duplicate_removal_index_decrements_once() {
    let mut hg = Hypergraph::new();
    hg.add_hyperedge(vec![0, 1]);
    hg.add_hyperedge(vec![2, 3]);
    hg.remove_hyperedges(&[0, 0]);
    assert_eq!(hg.edge_count(), 1);
    assert_eq!(hg.degrees()[0], 0);
    assert_eq!(hg.degrees()[1], 0);
    assert_eq!(hg.degrees()[2], 1);
    assert_eq!(hg.degrees()[3], 1);
    assert_eq!(hg.edges_slice()[0], vec![2, 3]);
    assert_degrees_consistent(&hg);
}

#[test]
fn out_of_range_removal_is_ignored() {
    let mut hg = Hypergraph::new();
    hg.add_hyperedge(vec![0, 1]);
    hg.remove_hyperedges(&[17]);
    assert_eq!(hg.edge_count(), 1);
    assert_eq!(hg.degrees()[0], 1);
    assert_degrees_consistent(&hg);
}

#[test]
fn short_edges_are_dropped_on_insertion() {
    let mut hg = Hypergraph::new();
    hg.add_hyperedge(vec![3]);
    hg.add_hyperedge(vec![]);
    assert_eq!(hg.edge_count(), 0);
    assert_eq!(hg.degrees().len(), 0);
    assert_eq!(hg.node_count(), 0);
}

#[test]
fn removal_batch_processes_indices_highest_first() {
    let mut hg = Hypergraph::new();
    hg.add_hyperedge(vec![0, 1]);
    hg.add_hyperedge(vec![2, 3]);
    hg.add_hyperedge(vec![4, 5]);
    hg.remove_hyperedges(&[0, 2]);
    assert_eq!(hg.edge_count(), 1);
    assert_eq!(hg.edges_slice()[0], vec![2, 3]);
    assert_degrees_consistent(&hg);
}

#[test]
fn removal_batch_sorts_unsorted_indices() {
    // Positions are processed from highest to lowest whatever their given
    // order, so [2, 0] removes both edges, not just one.
    let mut hg = Hypergraph::new();
    hg.add_hyperedge(vec![0, 1]);
    hg.add_hyperedge(vec![2, 3]);
    hg.add_hyperedge(vec![4, 5]);
    hg.remove_hyperedges(&[2, 0]);
    assert_eq!(hg.edge_count(), 1);
    assert_eq!(hg.edges_slice()[0], vec![2, 3]);
    assert_eq!(hg.degrees()[0], 0);
    assert_eq!(hg.degrees()[4], 0);
    assert_degrees_consistent(&hg);
}

#[test]
fn cleanup_remaps_surviving_nodes_densely() {
    let mut hg = Hypergraph::new();
    hg.add_hyperedge(vec![5, 7]);
    hg.cleanup(0);
    assert_eq!(hg.edge_count(), 1);
    assert_eq!(hg.edges_slice()[0], vec![0, 1]);
    assert_eq!(hg.degrees(), &vec![1, 1]);
    assert_eq!(hg.get_max_node_id(), 1);
    assert_degrees_consistent(&hg);
}

#[test]
fn add_node_on_fresh_store_gets_a_degree_slot() {
    let mut hg = Hypergraph::new();
    let id = hg.add_node(7);
    assert_eq!(id, 1);
    // The table covers the fresh id at degree 0 even on a fresh store.
    assert_eq!(hg.degrees().len(), 2);
    assert_eq!(hg.degrees()[1], 0);
    // Inside the protection window the fresh node survives compaction (the
    // unused slot 0 is pruned and the node remapped).
    hg.cleanup(8);
    assert_eq!(hg.degrees().len(), 1);
    assert_eq!(hg.get_max_node_id(), 0);
    assert_eq!(hg.node_count(), 0);
}

#[test]
fn cleanup_protects_recent_zero_degree_node() {
    let mut hg = Hypergraph::new();
    hg.add_hyperedge(vec![0, 0]);
    let id = hg.add_node(5);
    assert_eq!(id, 1);
    hg.cleanup(10);
    // 10 - 5 <= 10: the fresh node keeps its slot even at degree 0.
    assert_eq!(hg.degrees().len(), 2);
    assert_eq!(hg.node_count(), 1);
    hg.cleanup(16);
    // 16 - 5 > 10: now it is pruned.
    assert_eq!(hg.degrees().len(), 1);
    assert_eq!(hg.node_count(), 1);
    assert_degrees_consistent(&hg);
}

#[test]
fn cleanup_twice_at_same_step_changes_nothing() {
    let mut hg = Hypergraph::new();
    hg.add_hyperedge(vec![0, 0]);
    hg.add_hyperedge(vec![1, 2]);
    let _ = hg.add_node(4);
    hg.cleanup(6);
    let edges_once: Vec<Vec<usize>> = hg.edges_slice().to_vec();
    let degrees_once = hg.degrees().clone();
    let max_once = hg.get_max_node_id();
    hg.cleanup(6);
    assert_eq!(hg.edges_slice().to_vec(), edges_once);
    assert_eq!(hg.degrees(), &degrees_once);
    assert_eq!(hg.get_max_node_id(), max_once);
    assert_degrees_consistent(&hg);
}

#[test]
fn cleanup_drops_degenerate_rewritten_edges() {
    let mut hg = Hypergraph::new();
    hg.add_hyperedge(vec![1, 2]);
    hg.remove_hyperedges(&[0]);
    // Nodes 0..=2 all have degree 0 and are not recent: everything goes.
    hg.cleanup(0);
    assert_eq!(hg.edge_count(), 0);
    assert_eq!(hg.degrees().len(), 0);
    assert_eq!(hg.get_max_node_id(), 0);
}

#[test]
fn local_connected_bounds_and_empty_cases() {
    let mut hg = Hypergraph::new();
    hg.add_hyperedge(vec![0, 1]);
    hg.add_hyperedge(vec![1, 2]);
    hg.add_hyperedge(vec![2, 3]);
    hg.add_hyperedge(vec![0, 3]);
    // Out of range seed.
    assert!(hg.local_connected(99, 5).is_empty());
    // In-range seed with degree 0: grow the table with an isolated slot.
    hg.add_hyperedge(vec![6, 7]);
    hg.remove_hyperedges(&[4]);
    assert_eq!(hg.degrees()[5], 0);
    assert!(hg.local_connected(5, 5).is_empty());
    // The cap is respected and the first result is the lowest-indexed edge
    // containing the seed.
    for cap in 0..5 {
        let found = hg.local_connected(1, cap);
        assert!(found.len() <= cap);
        if cap > 0 {
            assert!(hg.edges_slice()[found[0]].contains(&1));
            for i in 0..found[0] {
                assert!(!hg.edges_slice()[i].contains(&1));
            }
        }
    }
    // All four connected edges are reachable from node 1 with a large cap,
    // and under the cap every edge containing the seed is collected.
    let all = hg.local_connected(1, 10);
    assert_eq!(all.len(), 4);
    assert!(all.contains(&0));
    assert!(all.contains(&1));
}

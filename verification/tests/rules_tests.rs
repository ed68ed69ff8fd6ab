use hypergraph_rewrite::hypergraph::Hypergraph;
use hypergraph_rewrite::rules::generate_rule;
use rand::rngs::StdRng;
use rand::SeedableRng;

#[test]
fn split_outcome_produces_two_fresh_chained_edges() {
    let mut hg = Hypergraph::new();
    hg.add_hyperedge(vec![0, 1]);
    let pattern = vec![vec![0, 1]];
    let fresh = hg.get_max_node_id() + 1;
    let mut seen_split = false;
    for seed in 0..64 {
        let mut rng = StdRng::seed_from_u64(seed);
        let rule = generate_rule(&hg, &pattern, &mut rng);
        if rule.remove && rule.after.len() == 2 {
            seen_split = true;
            assert_eq!(rule.after[0].len(), 2);
            assert_eq!(rule.after[1].len(), 2);
            assert_eq!(rule.after[0][0], 0);
            assert_eq!(rule.after[0][1], fresh);
            assert_eq!(rule.after[1][0], fresh);
            // The fresh node id never collides with either matched endpoint.
            assert_ne!(fresh, 0);
            assert_ne!(fresh, 1);
            // The second endpoint is a currently active node.
            let tail = rule.after[1][1];
            assert!(hg.degrees()[tail] > 0);
        }
    }
    assert!(seen_split);
}

#[test]
fn toggle_add_outcome_is_one_self_edge_on_an_active_node() {
    let mut hg = Hypergraph::new();
    hg.add_hyperedge(vec![0, 1]);
    let pattern = vec![vec![0, 1]];
    let mut seen_toggle_add = false;
    for seed in 0..64 {
        let mut rng = StdRng::seed_from_u64(seed);
        let rule = generate_rule(&hg, &pattern, &mut rng);
        if !rule.remove {
            seen_toggle_add = true;
            assert_eq!(rule.after.len(), 1);
            assert_eq!(rule.after[0].len(), 2);
            assert_eq!(rule.after[0][0], rule.node);
            assert_eq!(rule.after[0][1], rule.node);
            assert!(hg.degrees()[rule.node] > 0);
        }
    }
    assert!(seen_toggle_add);
}

#[test]
fn toggle_remove_fires_only_on_safe_self_looped_node() {
    let mut hg = Hypergraph::new();
    hg.add_hyperedge(vec![5, 5]);
    hg.add_hyperedge(vec![5, 6]);
    let pattern = vec![vec![5, 5]];
    let mut seen_remove_only = false;
    for seed in 0..256 {
        let mut rng = StdRng::seed_from_u64(seed);
        let rule = generate_rule(&hg, &pattern, &mut rng);
        if rule.remove && rule.after.is_empty() {
            seen_remove_only = true;
            // Only node 5 carries a self-relationship edge and degree > 1.
            assert_eq!(rule.node, 5);
        }
    }
    assert!(seen_remove_only);
}

#[test]
fn toggle_remove_removes_the_matched_pattern_not_the_self_loop() {
    // The safety check looks at the drawn node's self-relationship edge, but
    // the caller removes the matched pattern edges; those can differ, and
    // that coupling is kept as is.
    let mut hg = Hypergraph::new();
    hg.add_hyperedge(vec![5, 6]);
    hg.add_hyperedge(vec![5, 5]);
    hg.add_hyperedge(vec![5, 7]);
    let pattern = vec![vec![5, 6]];
    let mut seen = false;
    for seed in 0..256 {
        let mut rng = StdRng::seed_from_u64(seed);
        let rule = generate_rule(&hg, &pattern, &mut rng);
        if rule.remove && rule.after.is_empty() {
            seen = true;
            assert_eq!(rule.node, 5);
            // Applying the outcome as the step driver does removes the
            // matched edge [5, 6] by its index; the self-loop [5, 5] stays.
            let mut applied = Hypergraph::new();
            applied.add_hyperedge(vec![5, 6]);
            applied.add_hyperedge(vec![5, 5]);
            applied.add_hyperedge(vec![5, 7]);
            applied.remove_hyperedges(&[0]);
            assert!(applied.edges_slice().contains(&vec![5, 5]));
            assert!(!applied.edges_slice().contains(&vec![5, 6]));
            break;
        }
    }
    assert!(seen);
}

#[test]
fn rule_draws_fall_back_when_no_node_is_active() {
    // A store whose only edge was removed has no active node left; the rule
    // engine must fall back to the pattern's endpoints instead of failing.
    let mut hg = Hypergraph::new();
    hg.add_hyperedge(vec![0, 1]);
    hg.remove_hyperedges(&[0]);
    assert!(hg.active_nodes().is_empty());
    let pattern = vec![vec![0, 1]];
    for seed in 0..64 {
        let mut rng = StdRng::seed_from_u64(seed);
        let rule = generate_rule(&hg, &pattern, &mut rng);
        if rule.remove && rule.after.len() == 2 {
            // Split fallback: second endpoint of the matched edge.
            assert_eq!(rule.after[1][1], 1);
        }
        if !rule.remove {
            // Toggle fallback: first endpoint of the matched edge.
            assert_eq!(rule.node, 0);
        }
    }
}

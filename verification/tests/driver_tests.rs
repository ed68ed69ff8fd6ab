use hypergraph_rewrite::driver::{advance_step, run_simulation, seed_initial, StepOutcome};
use hypergraph_rewrite::hypergraph::Hypergraph;
use rand::rngs::StdRng;
use rand::SeedableRng;

fn occurrences(hg: &Hypergraph, node: usize) -> usize {
    let mut count = 0;
    for edge in hg.edges_slice() {
        for &n in edge {
            if n == node {
                count += 1;
            }
        }
    }
    count
}

#[test]
fn seeding_gives_one_doubly_self_connected_node() {
    let mut hg = Hypergraph::new();
    let id = seed_initial(&mut hg);
    assert_eq!(id, 1);
    assert_eq!(hg.node_count(), 1);
    assert_eq!(hg.edge_count(), 2);
    assert_eq!(hg.edges_slice(), &[vec![1, 1], vec![1, 1]]);
    assert_eq!(hg.active_nodes(), vec![1]);
}

#[test]
fn step_on_empty_store_halts_without_mutation() {
    let mut hg = Hypergraph::new();
    let mut rng = StdRng::seed_from_u64(42);
    let outcome = advance_step(&mut hg, &mut rng, 1);
    assert!(matches!(outcome, StepOutcome::Halted));
    assert_eq!(hg.edge_count(), 0);
    assert_eq!(hg.degrees().len(), 0);
}

#[test]
fn step_on_seeded_store_applies_a_rule() {
    let mut hg = Hypergraph::new();
    let _ = seed_initial(&mut hg);
    let mut rng = StdRng::seed_from_u64(42);
    let outcome = advance_step(&mut hg, &mut rng, 1);
    match outcome {
        StepOutcome::Applied(rule) => {
            // Every rule outcome adds at most two edges, all of arity 2.
            assert!(rule.after.len() <= 2);
            for e in &rule.after {
                assert_eq!(e.len(), 2);
            }
        },
        _ => panic!("a seeded store must neither halt nor skip"),
    }
}

#[test]
fn full_run_preserves_degree_consistency_and_arity_floor() {
    for seed in [0u64, 7, 42, 1234] {
        let mut rng = StdRng::seed_from_u64(seed);
        let mut hg = Hypergraph::new();
        let _ = seed_initial(&mut hg);
        run_simulation(&mut hg, &mut rng, 30);
        for edge in hg.edges_slice() {
            assert!(edge.len() >= 2);
        }
        let degrees = hg.degrees().clone();
        for (n, &d) in degrees.iter().enumerate() {
            assert_eq!(d, occurrences(&hg, n));
        }
        // Node ids stay dense after the final compaction.
        assert!(hg.degrees().len() <= hg.get_max_node_id() + 1);
    }
}

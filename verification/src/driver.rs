//! The step driver: seeds the initial condition and runs discrete rewrite
//! steps, each of which finds a local pattern around the lowest active node,
//! draws a rule, applies its outcome to the store, and compacts.

use vstd::prelude::*;

use crate::hypergraph::Hypergraph;
use crate::model::{
    add_from, added, cleaned, kept_count, lemma_batch_total_le, lemma_needed_len_ub,
    insert_sorted, lemma_rank_mono, lemma_total_push, lemma_total_slots_same_lens, node_added,
    removed_batch, sort_asc, total_slots, State,
};
use crate::rules::{
    generate_rule, is_active, is_least_active, some_active, split_shape, toggle_add_shape,
    toggle_remove_shape, Rule,
};

verus! {

/// What one step did: the loop halts when no active node remains; a step is
/// skipped when pattern discovery finds nothing; otherwise a rule outcome was
/// applied and the store compacted.
pub enum StepOutcome {
    Halted,
    Skipped,
    Applied(Rule),
}

/// One applied step at step number `t` takes `s0` to `s1` under rule outcome
/// `r`: the matched pattern is the lowest-indexed edge containing the lowest
/// active node, `r` has one of the three rule shapes on that edge, and `s1`
/// is `s0` with the pattern removed when the rule says so, the produced edges
/// inserted in order, and the store compacted at `t`.
pub open spec fn step_rel(s0: State, s1: State, r: Rule, t: usize) -> bool {
    exists|i: int, sd: usize|
        {
            &&& 0 <= i < s0.edges.len()
            &&& is_least_active(s0, sd)
            &&& s0.edges[i].contains(sd)
            &&& (forall|w: int| 0 <= w < i ==> !s0.edges[w].contains(sd))
            &&& (split_shape(s0, s0.edges[i], r) || toggle_add_shape(s0, s0.edges[i], r)
                || toggle_remove_shape(s0, s0.edges[i], r))
            &&& s1 == cleaned(
                add_from(
                    if r.remove {
                        removed_batch(s0, seq![i as usize])
                    } else {
                        s0
                    },
                    r.after.deep_view(),
                    0,
                ),
                t,
            )
        }
}

/// `s1` is reached from `s0` by applying one step relation at each of the
/// step numbers `lo`, `lo + 1`, ..., `hi - 1`, under some sequence of rule
/// outcomes.
pub open spec fn ran(s0: State, s1: State, lo: int, hi: int) -> bool
    decreases hi - lo,
{
    if lo >= hi {
        s0 == s1
    } else {
        exists|mid: State, r: Rule|
            #[trigger] step_rel(s0, mid, r, lo as usize) && ran(mid, s1, lo + 1, hi)
    }
}

/// A run can be extended by one more applied step at its end.
pub proof fn lemma_ran_snoc(s0: State, s1: State, s2: State, r: Rule, lo: int, hi: int)
    requires
        0 <= lo <= hi <= usize::MAX,
        ran(s0, s1, lo, hi),
        step_rel(s1, s2, r, hi as usize),
    ensures
        ran(s0, s2, lo, hi + 1),
    decreases hi - lo,
{
    if lo >= hi {
        assert(step_rel(s0, s2, r, lo as usize) && ran(s2, s2, lo + 1, hi + 1));
    } else {
        let (mid, r0): (State, Rule) = choose|mid: State, r0: Rule|
            #[trigger] step_rel(s0, mid, r0, lo as usize) && ran(mid, s1, lo + 1, hi);
        lemma_ran_snoc(mid, s1, s2, r, lo + 1, hi);
        assert(step_rel(s0, mid, r0, lo as usize) && ran(mid, s2, lo + 1, hi + 1));
    }
}

/// The initial condition: one freshly added node carrying two
/// self-relationship edges.
pub open spec fn seeded(s: State) -> State {
    let id = (s.max_node_id + 1) as usize;
    added(added(node_added(s, 0), seq![id, id]), seq![id, id])
}

/// Seeds the simulation: adds one node at step 0 and inserts two
/// self-relationship edges on it.
pub fn seed_initial(hg: &mut Hypergraph) -> (id: usize)
    requires
        old(hg).inv(),
        old(hg).abs().max_node_id + 2 <= usize::MAX,
        total_slots(old(hg).abs().edges) + 4 <= usize::MAX,
    ensures
        final(hg).inv(),
        final(hg).abs() == seeded(old(hg).abs()),
        id == old(hg).abs().max_node_id + 1,
{
    let ghost s0 = hg.abs();
    let id = hg.add_node(0);
    let e1: Vec<usize> = vec![id, id];
    proof {
        assert(e1@ =~= seq![id, id]);
    }
    hg.add_hyperedge(e1);
    proof {
        lemma_total_push(node_added(s0, 0).edges, seq![id, id]);
    }
    let e2: Vec<usize> = vec![id, id];
    proof {
        assert(e2@ =~= seq![id, id]);
    }
    hg.add_hyperedge(e2);
    id
}

/// Runs one discrete step: picks the lowest active node as seed, discovers a
/// single-edge local pattern, draws a rule, removes the matched pattern when
/// the rule says so, inserts the produced edges, and compacts at this step
/// number. The outcome reports exactly what happened; a `Halted` step leaves
/// the store untouched, and an `Applied` step leaves the store in the state
/// obtained by removing the matched edge (when asked), inserting the rule's
/// edges in order, and compacting.
#[verifier::loop_isolation(false)]
#[verifier::rlimit(60)]
pub fn advance_step(hg: &mut Hypergraph, rng: &mut rand::rngs::StdRng, step_no: usize) -> (o:
    StepOutcome)
    requires
        old(hg).inv(),
        total_slots(old(hg).abs().edges) + 4 <= usize::MAX,
        old(hg).abs().max_node_id + 2 <= usize::MAX,
    ensures
        final(hg).inv(),
        o is Halted <==> !some_active(old(hg).abs()),
        o is Halted ==> *final(hg) == *old(hg),
        !(o is Skipped),
        total_slots(final(hg).abs().edges) <= total_slots(old(hg).abs().edges) + 4,
        final(hg).abs().max_node_id <= old(hg).abs().max_node_id + 1,
        o matches StepOutcome::Applied(r) ==> step_rel(old(hg).abs(), final(hg).abs(), r, step_no),
{
    let ghost s0 = hg.abs();
    let active = hg.active_nodes();
    if active.len() == 0 {
        proof {
            if some_active(s0) {
                let m = choose|m: int| 0 <= m < s0.degrees.len() && s0.degrees[m] > 0;
                assert(active@.contains(m as usize));
            }
        }
        return StepOutcome::Halted;
    }
    let seed = active[0];
    proof {
        assert(is_active(s0, seed));
        assert forall|m: int| 0 <= m < seed implies s0.degrees[m] == 0 by {
            if s0.degrees[m] > 0 {
                assert(active@.contains(m as usize));
                let w = choose|w: int| 0 <= w < active@.len() && active@[w] == m as usize;
                if w > 0 {
                    assert(active@[0] < active@[w]);
                }
            }
        }
        assert(is_least_active(s0, seed));
    }
    let local = hg.local_connected(seed, 1);
    if local.len() == 0 {
        return StepOutcome::Skipped;
    }
    let idx0 = local[0];
    let ghost p0 = s0.edges[idx0 as int];
    let mut pattern: Vec<Vec<usize>> = Vec::new();
    match hg.get_edge(idx0) {
        Some(e) => {
            pattern.push(e.clone());
        },
        None => {},
    }
    proof {
        assert(pattern@.len() == 1);
        assert(pattern@[0]@ =~= p0);
    }
    let r = generate_rule(hg, pattern.as_slice(), rng);
    let ghost s1 = if r.remove {
        removed_batch(s0, seq![idx0])
    } else {
        s0
    };
    let ghost afters = r.after.deep_view();
    proof {
        assert(forall|k: int|
            0 <= k < r.after@.len() ==> #[trigger] afters[k] =~= r.after@[k]@);
        assert(afters.len() <= 2);
        assert(forall|k: int| 0 <= k < afters.len() ==> (#[trigger] afters[k]).len() == 2);
        assert forall|k: int, j: int|
            0 <= k < afters.len() && 0 <= j < afters[k].len() implies (#[trigger] afters[k][j]) as int
            <= s0.max_node_id as int + 1 by {
            assert(s0.degrees.len() <= s0.max_node_id + 1);
        }
    }
    if r.remove {
        let idxs: Vec<usize> = vec![idx0];
        proof {
            assert(idxs@ =~= seq![idx0]);
            assert(seq![idx0].drop_last() =~= Seq::<usize>::empty());
            assert(sort_asc(Seq::<usize>::empty()) =~= Seq::<usize>::empty());
            assert(insert_sorted(Seq::<usize>::empty(), idx0) =~= seq![idx0]);
            assert(sort_asc(seq![idx0]) =~= seq![idx0]);
        }
        hg.remove_hyperedges(idxs.as_slice());
    }
    proof {
        assert(hg.abs() == s1);
        lemma_batch_total_le(s0.edges, Seq::<usize>::empty(), seq![idx0]);
        assert(total_slots(s1.edges) <= total_slots(s0.edges));
        assert(s1.max_node_id == s0.max_node_id);
        assert(s1.degrees.len() == s0.degrees.len());
    }
    let na = r.after.len();
    for k in 0..na
        invariant
            na == afters.len(),
            r.after.deep_view() == afters,
            hg.inv(),
            add_from(hg.abs(), afters, k as int) == add_from(s1, afters, 0),
            total_slots(hg.abs().edges) <= total_slots(s0.edges) + 2 * k,
            hg.abs().max_node_id <= s0.max_node_id + 1,
    {
        let e = r.after[k].clone();
        proof {
            assert(e@ =~= afters[k as int]);
            assert(total_slots(hg.abs().edges) + e@.len() <= usize::MAX);
        }
        let ghost pre = hg.abs();
        hg.add_hyperedge(e);
        proof {
            assert(hg.abs() == added(pre, afters[k as int]));
            assert(add_from(hg.abs(), afters, k as int + 1) == add_from(s1, afters, 0));
            lemma_total_push(pre.edges, afters[k as int]);
            lemma_needed_len_ub(
                afters[k as int],
                pre.degrees.len(),
                (s0.max_node_id + 2) as nat,
            );
        }
    }
    proof {
        assert(hg.abs() == add_from(s1, afters, 0));
    }
    let ghost s2 = hg.abs();
    hg.cleanup(step_no);
    proof {
        let cl = cleaned(s2, step_no);
        assert(forall|i: int|
            0 <= i < cl.edges.len() ==> (#[trigger] cl.edges[i]).len() == s2.edges[i].len());
        lemma_total_slots_same_lens(cl.edges, s2.edges);
        lemma_rank_mono(s2, 0, s2.degrees.len() as int, step_no);
        assert(kept_count(s2, step_no) <= s2.degrees.len());
        assert(step_rel(s0, hg.abs(), r, step_no)) by {
            assert((idx0 as int) < s0.edges.len());
            assert(seq![idx0 as usize] =~= seq![idx0]);
            assert(is_least_active(s0, seed));
            assert(s0.edges[idx0 as int].contains(seed));
            assert(forall|w: int| 0 <= w < idx0 ==> !s0.edges[w].contains(seed));
        }
    }
    StepOutcome::Applied(r)
}

/// Runs the step loop for the given step budget: applies the step relation at
/// step numbers 1, 2, ... in order, stopping early exactly when no active
/// node remains. The final state is reached from the initial one by some such
/// chain of applied steps.
#[verifier::loop_isolation(false)]
pub fn run_simulation(hg: &mut Hypergraph, rng: &mut rand::rngs::StdRng, steps: usize)
    requires
        old(hg).inv(),
        total_slots(old(hg).abs().edges) + 4 * steps <= usize::MAX,
        old(hg).abs().max_node_id + steps + 2 <= usize::MAX,
        steps < usize::MAX,
    ensures
        final(hg).inv(),
        exists|n: int|
            {
                &&& 1 <= n <= steps + 1
                &&& ran(old(hg).abs(), final(hg).abs(), 1, n)
                &&& (n == steps + 1 || !some_active(final(hg).abs()))
            },
{
    let ghost s0 = hg.abs();
    let mut step: usize = 1;
    let mut halted = false;
    while step <= steps && !halted
        invariant
            1 <= step <= steps + 1,
            hg.inv(),
            total_slots(hg.abs().edges) + 4 * (steps - step + 1) <= usize::MAX,
            hg.abs().max_node_id + (steps - step + 1) + 2 <= usize::MAX,
            ran(s0, hg.abs(), 1, step as int),
            halted ==> !some_active(hg.abs()),
        decreases steps + 1 - step, (if halted {
            0int
        } else {
            1int
        }),
    {
        let ghost pre = hg.abs();
        let o = advance_step(hg, rng, step);
        match o {
            StepOutcome::Halted => {
                halted = true;
            },
            StepOutcome::Applied(r) => {
                proof {
                    lemma_ran_snoc(s0, pre, hg.abs(), r, 1, step as int);
                }
                step = step + 1;
            },
            StepOutcome::Skipped => {
                step = step + 1;
            },
        }
    }
    proof {
        let n = step as int;
        assert(1 <= n <= steps + 1 && ran(s0, hg.abs(), 1, n) && (n == steps + 1 || !some_active(
            hg.abs(),
        )));
    }
}

} // verus!

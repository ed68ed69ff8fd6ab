//! The stochastic rule engine: one uniform draw selects among three rewrite
//! rules (split, toggle-add, toggle-remove); a second draw picks a random
//! active node, with deterministic fallbacks when none exists.

use vstd::prelude::*;

use rand::seq::SliceRandom;
use rand::Rng;

use crate::hypergraph::Hypergraph;
use crate::model::{inv_s, State};

verus! {

/// Outcome of one rule draw: the hyperedges to add, whether the matched
/// pattern edges should be removed, and the node the rule focused on.
pub struct Rule {
    pub after: Vec<Vec<usize>>,
    pub remove: bool,
    pub node: usize,
}

#[verifier::external_type_specification]
#[verifier::external_body]
pub struct ExStdRng(rand::rngs::StdRng);

/// Relies on rand's `Rng::gen_range` over `0..bound`: a uniform value below
/// `bound`. It panics only on an empty range, which the precondition rules
/// out.
#[verifier::external_body]
fn draw_below(rng: &mut rand::rngs::StdRng, bound: u64) -> (r: u64)
    requires
        bound > 0,
    ensures
        r < bound,
{
    rng.gen_range(0..bound)
}

/// Relies on rand's `SliceRandom::choose`: `Some` holding one element of the
/// slice exactly when the slice is non-empty, `None` otherwise.
#[verifier::external_body]
fn choose_node(rng: &mut rand::rngs::StdRng, v: &Vec<usize>) -> (r: Option<usize>)
    ensures
        r is Some <==> v@.len() > 0,
        r matches Some(x) ==> v@.contains(x),
{
    v.as_slice().choose(rng).copied()
}

/// A node with positive degree.
pub open spec fn is_active(s: State, n: usize) -> bool {
    n < s.degrees.len() && s.degrees[n as int] > 0
}

/// Does any active node exist at all?
pub open spec fn some_active(s: State) -> bool {
    exists|m: int| 0 <= m < s.degrees.len() && s.degrees[m] > 0
}

/// `n` is the active node with the lowest id.
pub open spec fn is_least_active(s: State, n: usize) -> bool {
    is_active(s, n) && forall|m: int| 0 <= m < n ==> s.degrees[m] == 0
}

/// `n` was drawn from the active nodes, or is the fallback `fb` when no
/// active node exists.
pub open spec fn drawn_or(s: State, fb: usize, n: usize) -> bool {
    if some_active(s) {
        is_active(s, n)
    } else {
        n == fb
    }
}

/// A two-element hyperedge with both endpoints equal to `n`.
pub open spec fn is_self_loop(e: Seq<usize>, n: usize) -> bool {
    e.len() == 2 && e[0] == n && e[1] == n
}

/// Some stored hyperedge is a self-relationship on `n`.
pub open spec fn has_self_loop(s: State, n: usize) -> bool {
    exists|i: int| 0 <= i < s.edges.len() && is_self_loop(#[trigger] s.edges[i], n)
}

/// Shape of a Split outcome on matched edge `p0`: the matched pattern is
/// removed and (for a genuine arity-2 pattern) two fresh arity-2 edges appear,
/// from the matched edge's first endpoint to the fresh node `max_node_id + 1`,
/// and from the fresh node to a drawn active node (fallback: the matched
/// edge's second endpoint).
pub open spec fn split_shape(s: State, p0: Seq<usize>, r: Rule) -> bool {
    &&& r.remove == true
    &&& r.node == 0
    &&& (p0.len() >= 2 ==> {
        &&& r.after@.len() == 2
        &&& r.after@[0]@.len() == 2
        &&& r.after@[1]@.len() == 2
        &&& r.after@[0]@[0] == p0[0]
        &&& r.after@[0]@[1] as int == s.max_node_id as int + 1
        &&& r.after@[1]@[0] as int == s.max_node_id as int + 1
        &&& drawn_or(s, p0[1], r.after@[1]@[1])
    })
    &&& (p0.len() < 2 ==> r.after@.len() == 0)
}

/// Shape of a Toggle-Add outcome: nothing removed, one self-relationship edge
/// added on the focused node, which was drawn from the active nodes
/// (fallback: the matched edge's first endpoint).
pub open spec fn toggle_add_shape(s: State, p0: Seq<usize>, r: Rule) -> bool {
    &&& r.remove == false
    &&& drawn_or(s, p0[0], r.node)
    &&& r.after@.len() == 1
    &&& r.after@[0]@.len() == 2
    &&& r.after@[0]@[0] == r.node
    &&& r.after@[0]@[1] == r.node
}

/// Shape of a Toggle-Remove outcome: when the focused node carries a
/// self-relationship edge and its degree exceeds 1, the matched pattern is
/// removed and nothing added; otherwise it degrades to Toggle-Add.
pub open spec fn toggle_remove_shape(s: State, p0: Seq<usize>, r: Rule) -> bool {
    &&& drawn_or(s, p0[0], r.node)
    &&& if has_self_loop(s, r.node) && r.node < s.degrees.len() && s.degrees[r.node as int] > 1 {
        r.remove == true && r.after@.len() == 0
    } else {
        &&& r.remove == false
        &&& r.after@.len() == 1
        &&& r.after@[0]@.len() == 2
        &&& r.after@[0]@[0] == r.node
        &&& r.after@[0]@[1] == r.node
    }
}

/// Linear scan for a self-relationship edge on `node`.
fn find_self_loop(hg: &Hypergraph, node: usize) -> (b: bool)
    ensures
        b == has_self_loop(hg.abs(), node),
{
    let ghost es = hg.abs().edges;
    let edges = hg.edges_slice();
    let n = edges.len();
    let mut found = false;
    for i in 0..n
        invariant
            n == es.len(),
            edges.deep_view() == es,
            found == exists|t: int| 0 <= t < i && is_self_loop(#[trigger] es[t], node),
    {
        proof {
            assert(es[i as int] =~= edges@[i as int]@);
        }
        let e = &edges[i];
        if e.len() == 2 {
            if e[0] == node && e[1] == node {
                found = true;
                proof {
                    assert(is_self_loop(es[i as int], node));
                }
            }
        }
    }
    found
}

/// Deterministic core of the rule engine: builds the outcome from the store,
/// the matched pattern, the rule-selection roll (a uniform draw below 10:
/// values 0 to 4 select Split, 5 to 8 Toggle-Add, 9 Toggle-Remove, so the
/// three branches are exhaustive and chosen with probabilities 1/2, 2/5 and
/// 1/10), and the optionally drawn active node.
pub fn rule_for_roll(hg: &Hypergraph, pattern: &[Vec<usize>], roll: u64, pick: Option<usize>) -> (r:
    Rule)
    requires
        hg.inv(),
        roll < 10,
        pattern@.len() >= 1,
        pattern@[0]@.len() >= 1,
        forall|j: int| 0 <= j < pattern@[0]@.len() ==> #[trigger] pattern@[0]@[j] < hg.abs().degrees.len(),
        hg.abs().max_node_id < usize::MAX,
        pick is Some <==> some_active(hg.abs()),
        pick matches Some(x) ==> is_active(hg.abs(), x),
    ensures
        roll < 5 ==> split_shape(hg.abs(), pattern@[0]@, r),
        5 <= roll < 9 ==> toggle_add_shape(hg.abs(), pattern@[0]@, r),
        roll >= 9 ==> toggle_remove_shape(hg.abs(), pattern@[0]@, r),
{
    if roll < 5 {
        let edge = &pattern[0];
        let new_node = hg.get_max_node_id() + 1;
        let mut after: Vec<Vec<usize>> = Vec::new();
        if edge.len() >= 2 {
            after.push(vec![edge[0], new_node]);
            let second = match pick {
                Some(x) => x,
                None => edge[1],
            };
            after.push(vec![new_node, second]);
        }
        Rule { after, remove: true, node: 0 }
    } else if roll < 9 {
        let node = match pick {
            Some(x) => x,
            None => pattern[0][0],
        };
        let mut after: Vec<Vec<usize>> = Vec::new();
        after.push(vec![node, node]);
        Rule { after, remove: false, node }
    } else {
        let node = match pick {
            Some(x) => x,
            None => pattern[0][0],
        };
        let has_self = find_self_loop(hg, node);
        let degree = hg.degrees()[node];
        if has_self && degree > 1 {
            Rule { after: Vec::new(), remove: true, node }
        } else {
            let mut after: Vec<Vec<usize>> = Vec::new();
            after.push(vec![node, node]);
            Rule { after, remove: false, node }
        }
    }
}

/// Draws one uniform rule-selection value and one random active node, then
/// builds the outcome deterministically: every returned rule has one of the
/// three shapes.
pub fn generate_rule(hg: &Hypergraph, pattern: &[Vec<usize>], rng: &mut rand::rngs::StdRng) -> (r:
    Rule)
    requires
        hg.inv(),
        pattern@.len() >= 1,
        pattern@[0]@.len() >= 1,
        forall|j: int| 0 <= j < pattern@[0]@.len() ==> #[trigger] pattern@[0]@[j] < hg.abs().degrees.len(),
        hg.abs().max_node_id < usize::MAX,
    ensures
        split_shape(hg.abs(), pattern@[0]@, r) || toggle_add_shape(hg.abs(), pattern@[0]@, r)
            || toggle_remove_shape(hg.abs(), pattern@[0]@, r),
{
    let active = hg.active_nodes();
    let roll = draw_below(rng, 10);
    let pick = choose_node(rng, &active);
    proof {
        if pick is Some {
            let x = pick->0;
            assert(active@.contains(x));
            let w = choose|w: int| 0 <= w < active@.len() && active@[w] == x;
            assert(is_active(hg.abs(), x));
            assert(some_active(hg.abs()));
        } else {
            if some_active(hg.abs()) {
                let m = choose|m: int|
                    0 <= m < hg.abs().degrees.len() && hg.abs().degrees[m] > 0;
                assert(active@.contains(m as usize));
            }
        }
    }
    rule_for_roll(hg, pattern, roll, pick)
}

/// A Split outcome on a genuine matched edge `[a, b]` yields exactly two new
/// arity-2 edges, chained through the freshly allocated node, whose id is
/// distinct from both `a` and `b`.
pub proof fn lemma_split_fresh_node(s: State, p0: Seq<usize>, r: Rule)
    requires
        inv_s(s),
        p0.len() >= 2,
        forall|j: int| 0 <= j < p0.len() ==> #[trigger] p0[j] < s.degrees.len(),
        split_shape(s, p0, r),
    ensures
        r.after@.len() == 2,
        r.after@[0]@.len() == 2,
        r.after@[1]@.len() == 2,
        r.after@[0]@[0] == p0[0],
        r.after@[0]@[1] == r.after@[1]@[0],
        r.after@[0]@[1] != p0[0],
        r.after@[0]@[1] != p0[1],
{
    assert(p0[0] < s.degrees.len() <= s.max_node_id + 1);
    assert(p0[1] < s.degrees.len() <= s.max_node_id + 1);
}

} // verus!

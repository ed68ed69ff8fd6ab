//! Mathematical model of the hypergraph store: an abstract state, the
//! occurrence-counting functions that define node degrees, and the spec-level
//! transformers that say what each store operation does to the abstract state.

use vstd::prelude::*;

verus! {

/// Abstract state of the store: hyperedges, degree table, high-water node id,
/// and the (node, step) pairs recorded as recently created.
#[verifier::ext_equal]
pub ghost struct State {
    pub edges: Seq<Seq<usize>>,
    pub degrees: Seq<usize>,
    pub max_node_id: nat,
    pub recent: Seq<(usize, usize)>,
}

/// Number of occurrences of `n` in one hyperedge.
pub open spec fn cnt(e: Seq<usize>, n: usize) -> nat
    decreases e.len(),
{
    if e.len() == 0 {
        0
    } else {
        cnt(e.drop_last(), n) + if e.last() == n {
            1nat
        } else {
            0nat
        }
    }
}

/// Number of occurrences of `n` across all hyperedges: the degree of `n`.
pub open spec fn occ(edges: Seq<Seq<usize>>, n: usize) -> nat
    decreases edges.len(),
{
    if edges.len() == 0 {
        0
    } else {
        occ(edges.drop_last(), n) + cnt(edges.last(), n)
    }
}

/// Total number of occurrence slots over all hyperedges.
pub open spec fn total_slots(edges: Seq<Seq<usize>>) -> nat
    decreases edges.len(),
{
    if edges.len() == 0 {
        0
    } else {
        total_slots(edges.drop_last()) + edges.last().len()
    }
}

/// Well-formedness: edges keep arity at least 2, every referenced node has a
/// degree slot, the degree table matches the occurrence counts, the slot total
/// fits the machine, and the high-water id covers the whole table.
pub open spec fn inv_s(s: State) -> bool {
    &&& forall|i: int| 0 <= i < s.edges.len() ==> (#[trigger] s.edges[i]).len() >= 2
    &&& forall|i: int, j: int|
        0 <= i < s.edges.len() && 0 <= j < s.edges[i].len() ==> #[trigger] s.edges[i][j]
            < s.degrees.len()
    &&& forall|n: int|
        0 <= n < s.degrees.len() ==> #[trigger] s.degrees[n] == occ(s.edges, n as usize)
    &&& total_slots(s.edges) <= usize::MAX
    &&& s.degrees.len() <= s.max_node_id + 1
    &&& s.max_node_id <= usize::MAX
}

/// Length the degree table must grow to so that every node of `e` has a slot,
/// starting from a table of length `base`.
pub open spec fn needed_len(e: Seq<usize>, base: nat) -> nat
    decreases e.len(),
{
    if e.len() == 0 {
        base
    } else {
        let b = needed_len(e.drop_last(), base);
        if e.last() + 1 > b {
            (e.last() + 1) as nat
        } else {
            b
        }
    }
}

/// State after inserting one hyperedge: edges below arity 2 are dropped, else
/// the edge is appended, the degree table grows to cover its nodes, every
/// degree is the occurrence count again, and the high-water id absorbs the
/// largest new node.
pub open spec fn added(s: State, e: Seq<usize>) -> State {
    if e.len() < 2 {
        s
    } else {
        let ne = s.edges.push(e);
        let nl = needed_len(e, s.degrees.len());
        State {
            edges: ne,
            degrees: Seq::new(nl, |n: int| occ(ne, n as usize) as usize),
            max_node_id: if s.max_node_id + 1 >= nl {
                s.max_node_id
            } else {
                (nl - 1) as nat
            },
            recent: s.recent,
        }
    }
}

/// State after registering a fresh node: the next id handed out, the degree
/// table grown (zero-filled) so that it covers the fresh id, and the pair
/// (id, step) recorded as recent.
pub open spec fn node_added(s: State, step: usize) -> State {
    let id = (s.max_node_id + 1) as usize;
    State {
        edges: s.edges,
        degrees: Seq::new(
            (id + 1) as nat,
            |n: int|
                if n < s.degrees.len() {
                    s.degrees[n]
                } else {
                    0
                },
        ),
        max_node_id: s.max_node_id + 1,
        recent: s.recent.push((id, step)),
    }
}

/// One swap-style removal: the last edge moves into slot `i`.
pub open spec fn swap_removed(edges: Seq<Seq<usize>>, i: int) -> Seq<Seq<usize>> {
    edges.update(i, edges.last()).drop_last()
}

/// One step of batch removal: index `i` is removed unless out of range or
/// already hit in this batch.
pub open spec fn batch_step(edges: Seq<Seq<usize>>, hit: Seq<usize>, i: usize) -> (Seq<
    Seq<usize>,
>, Seq<usize>) {
    if i < edges.len() && !hit.contains(i) {
        (swap_removed(edges, i as int), hit.push(i))
    } else {
        (edges, hit)
    }
}

/// Batch removal processes the given indices from the last to the first,
/// skipping out-of-range and repeated indices.
pub open spec fn batch_removed(edges: Seq<Seq<usize>>, hit: Seq<usize>, idx: Seq<usize>) -> (Seq<
    Seq<usize>,
>, Seq<usize>)
    decreases idx.len(),
{
    if idx.len() == 0 {
        (edges, hit)
    } else {
        let p = batch_step(edges, hit, idx.last());
        batch_removed(p.0, p.1, idx.drop_last())
    }
}

/// Inserts `x` into an ascending sequence, after every element not greater
/// than it.
pub open spec fn insert_sorted(s: Seq<usize>, x: usize) -> Seq<usize>
    decreases s.len(),
{
    if s.len() == 0 {
        seq![x]
    } else if x >= s.last() {
        s.push(x)
    } else {
        insert_sorted(s.drop_last(), x).push(s.last())
    }
}

/// The given indices in ascending order (insertion sort); batch removal
/// processes them from the end of this sequence, that is from the highest
/// index to the lowest.
pub open spec fn sort_asc(s: Seq<usize>) -> Seq<usize>
    decreases s.len(),
{
    if s.len() == 0 {
        Seq::empty()
    } else {
        insert_sorted(sort_asc(s.drop_last()), s.last())
    }
}

/// Inserting into an ascending sequence keeps it ascending, adds one slot,
/// and adds no value but `x`.
pub proof fn lemma_insert_sorted_props(s: Seq<usize>, x: usize)
    requires
        forall|a: int, b: int| 0 <= a < b < s.len() ==> s[a] <= s[b],
    ensures
        insert_sorted(s, x).len() == s.len() + 1,
        forall|a: int, b: int|
            0 <= a < b < insert_sorted(s, x).len() ==> insert_sorted(s, x)[a] <= insert_sorted(
                s,
                x,
            )[b],
        forall|t: int|
            0 <= t < insert_sorted(s, x).len() ==> insert_sorted(s, x)[t] == x || s.contains(
                #[trigger] insert_sorted(s, x)[t],
            ),
    decreases s.len(),
{
    if s.len() == 0 {
    } else if x >= s.last() {
        assert forall|t: int|
            0 <= t < s.push(x).len() implies s.push(x)[t] == x || s.contains(
            #[trigger] s.push(x)[t],
        ) by {
            if t < s.len() {
                assert(s[t] == s.push(x)[t]);
            }
        }
    } else {
        let d = s.drop_last();
        assert(forall|a: int, b: int| 0 <= a < b < d.len() ==> d[a] == s[a] && d[b] == s[b]);
        lemma_insert_sorted_props(d, x);
        let p = insert_sorted(d, x);
        assert forall|t: int| 0 <= t < p.len() implies p[t] <= s.last() by {
            if p[t] != x {
                let w = choose|w: int| 0 <= w < d.len() && d[w] == p[t];
                assert(s[w] == d[w]);
                assert(s[w] <= s[s.len() - 1]);
            }
        }
        assert forall|t: int|
            0 <= t < p.push(s.last()).len() implies p.push(s.last())[t] == x || s.contains(
            #[trigger] p.push(s.last())[t],
        ) by {
            if t < p.len() {
                assert(p.push(s.last())[t] == p[t]);
                if p[t] != x {
                    let w = choose|w: int| 0 <= w < d.len() && d[w] == p[t];
                    assert(s[w] == d[w]);
                }
            } else {
                assert(p.push(s.last())[t] == s[s.len() - 1]);
            }
        }
    }
}

/// Sorting keeps the length and yields an ascending sequence.
pub proof fn lemma_sort_asc_props(s: Seq<usize>)
    ensures
        sort_asc(s).len() == s.len(),
        forall|a: int, b: int| 0 <= a < b < sort_asc(s).len() ==> sort_asc(s)[a] <= sort_asc(s)[b],
    decreases s.len(),
{
    if s.len() > 0 {
        lemma_sort_asc_props(s.drop_last());
        lemma_insert_sorted_props(sort_asc(s.drop_last()), s.last());
    }
}

/// On an ascending sequence, `insert_sorted` places `x` at the first
/// position whose element exceeds it.
pub proof fn lemma_insert_sorted_at(s: Seq<usize>, x: usize, j: int)
    requires
        forall|a: int, b: int| 0 <= a < b < s.len() ==> s[a] <= s[b],
        0 <= j <= s.len(),
        forall|t: int| 0 <= t < j ==> s[t] <= x,
        j < s.len() ==> s[j] > x,
    ensures
        insert_sorted(s, x) == s.insert(j, x),
    decreases s.len(),
{
    if s.len() == 0 {
        assert(insert_sorted(s, x) =~= s.insert(0, x));
    } else if x >= s.last() {
        assert(j == s.len()) by {
            if j < s.len() {
                assert(s[j] <= s[s.len() - 1]);
            }
        }
        assert(s.push(x) =~= s.insert(j, x));
    } else {
        assert(j < s.len()) by {
            if j == s.len() {
                assert(s[s.len() - 1] <= x);
            }
        }
        let d = s.drop_last();
        assert(forall|a: int, b: int| 0 <= a < b < d.len() ==> d[a] == s[a] && d[b] == s[b]);
        assert(forall|t: int| 0 <= t < j ==> d[t] == s[t]);
        assert(j < d.len() ==> d[j] == s[j]);
        lemma_insert_sorted_at(d, x, j);
        assert(insert_sorted(d, x).push(s.last()) =~= s.insert(j, x));
    }
}

/// State after a batch removal: the surviving edges, with the degree table
/// recomputed from them; table length, high-water id and recent list stay.
pub open spec fn removed_batch(s: State, idx: Seq<usize>) -> State {
    let e2 = batch_removed(s.edges, Seq::<usize>::empty(), idx).0;
    State {
        edges: e2,
        degrees: Seq::new(s.degrees.len(), |n: int| occ(e2, n as usize) as usize),
        max_node_id: s.max_node_id,
        recent: s.recent,
    }
}

/// State after inserting the edges of `es` in order, starting at position
/// `k`.
pub open spec fn add_from(s: State, es: Seq<Seq<usize>>, k: int) -> State
    decreases es.len() - k,
{
    if k < 0 || k >= es.len() {
        s
    } else {
        add_from(added(s, es[k]), es, k + 1)
    }
}

/// Is the pair (node, step) still inside the 10-step protection window at
/// `cs`?
pub open spec fn in_window(p: (usize, usize), cs: usize) -> bool {
    p.1 <= cs && cs - p.1 <= 10
}

/// Is node `n` protected at step `cs` by some recorded recent pair?
pub open spec fn is_recent(recent: Seq<(usize, usize)>, n: usize, cs: usize) -> bool {
    exists|j: int| 0 <= j < recent.len() && recent[j].0 == n && in_window(#[trigger] recent[j], cs)
}

/// The recent list with only the pairs still inside the window, order kept.
pub open spec fn recent_within(recent: Seq<(usize, usize)>, cs: usize) -> Seq<(usize, usize)>
    decreases recent.len(),
{
    if recent.len() == 0 {
        Seq::empty()
    } else {
        let p = recent_within(recent.drop_last(), cs);
        if in_window(recent.last(), cs) {
            p.push(recent.last())
        } else {
            p
        }
    }
}

/// Does compaction at step `cs` keep slot `i`: positive degree or recency.
pub open spec fn kept(s: State, i: int, cs: usize) -> bool {
    0 <= i < s.degrees.len() && (s.degrees[i] > 0 || is_recent(s.recent, i as usize, cs))
}

/// Dense id that compaction assigns to slot `i`: the number of kept slots
/// before it.
pub open spec fn rank(s: State, i: int, cs: usize) -> nat
    decreases i,
{
    if i <= 0 {
        0
    } else {
        rank(s, i - 1, cs) + if kept(s, i - 1, cs) {
            1nat
        } else {
            0nat
        }
    }
}

/// Number of slots that compaction at step `cs` keeps.
pub open spec fn kept_count(s: State, cs: usize) -> nat {
    rank(s, s.degrees.len() as int, cs)
}

/// State after compaction at step `cs`, for well-formed states: every node
/// referenced by an edge has positive degree and is therefore kept, so each
/// edge survives with its nodes remapped to their dense ids; degrees are
/// recomputed, the high-water id becomes the kept count minus one (floored at
/// zero), and the recent list is filtered to the window.
pub open spec fn cleaned(s: State, cs: usize) -> State {
    let ne = s.edges.map_values(
        |e: Seq<usize>| e.map_values(|n: usize| rank(s, n as int, cs) as usize),
    );
    let kc = kept_count(s, cs);
    State {
        edges: ne,
        degrees: Seq::new(kc, |n: int| occ(ne, n as usize) as usize),
        max_node_id: if kc == 0 {
            0
        } else {
            (kc - 1) as nat
        },
        recent: recent_within(s.recent, cs),
    }
}

/// Number of slots below `upto` whose degree is positive: the active nodes.
pub open spec fn count_active(degrees: Seq<usize>, upto: int) -> nat
    decreases upto,
{
    if upto <= 0 {
        0
    } else {
        count_active(degrees, upto - 1) + if upto <= degrees.len() && degrees[upto - 1] > 0 {
            1nat
        } else {
            0nat
        }
    }
}

pub proof fn lemma_cnt_le_len(e: Seq<usize>, n: usize)
    ensures
        cnt(e, n) <= e.len(),
    decreases e.len(),
{
    if e.len() > 0 {
        lemma_cnt_le_len(e.drop_last(), n);
    }
}

pub proof fn lemma_occ_le_total(edges: Seq<Seq<usize>>, n: usize)
    ensures
        occ(edges, n) <= total_slots(edges),
    decreases edges.len(),
{
    if edges.len() > 0 {
        lemma_occ_le_total(edges.drop_last(), n);
        lemma_cnt_le_len(edges.last(), n);
    }
}

pub proof fn lemma_occ_push(edges: Seq<Seq<usize>>, e: Seq<usize>, n: usize)
    ensures
        occ(edges.push(e), n) == occ(edges, n) + cnt(e, n),
{
    assert(edges.push(e).drop_last() =~= edges);
}

pub proof fn lemma_total_push(edges: Seq<Seq<usize>>, e: Seq<usize>)
    ensures
        total_slots(edges.push(e)) == total_slots(edges) + e.len(),
{
    assert(edges.push(e).drop_last() =~= edges);
}

pub proof fn lemma_cnt_take_succ(e: Seq<usize>, j: int, n: usize)
    requires
        0 <= j < e.len(),
    ensures
        cnt(e.take(j + 1), n) == cnt(e.take(j), n) + if e[j] == n {
            1nat
        } else {
            0nat
        },
{
    assert(e.take(j + 1).drop_last() =~= e.take(j));
    assert(e.take(j + 1).last() == e[j]);
}

pub proof fn lemma_occ_take_succ(edges: Seq<Seq<usize>>, j: int, n: usize)
    requires
        0 <= j < edges.len(),
    ensures
        occ(edges.take(j + 1), n) == occ(edges.take(j), n) + cnt(edges[j], n),
{
    assert(edges.take(j + 1).drop_last() =~= edges.take(j));
    assert(edges.take(j + 1).last() == edges[j]);
}

pub proof fn lemma_cnt_take_le(e: Seq<usize>, j: int, n: usize)
    requires
        0 <= j <= e.len(),
    ensures
        cnt(e.take(j), n) <= cnt(e, n),
    decreases e.len() - j,
{
    if j == e.len() {
        assert(e.take(j) =~= e);
    } else {
        lemma_cnt_take_succ(e, j, n);
        lemma_cnt_take_le(e, j + 1, n);
    }
}

pub proof fn lemma_cnt_pos(e: Seq<usize>, j: int, n: usize)
    requires
        0 <= j < e.len(),
        e[j] == n,
    ensures
        cnt(e, n) >= 1,
    decreases e.len(),
{
    if j < e.len() - 1 {
        assert(e.drop_last()[j] == e[j]);
        lemma_cnt_pos(e.drop_last(), j, n);
    }
}

pub proof fn lemma_occ_lower(edges: Seq<Seq<usize>>, i: int, n: usize)
    requires
        0 <= i < edges.len(),
    ensures
        cnt(edges[i], n) <= occ(edges, n),
    decreases edges.len(),
{
    if i < edges.len() - 1 {
        assert(edges.drop_last()[i] == edges[i]);
        lemma_occ_lower(edges.drop_last(), i, n);
    }
}

pub proof fn lemma_occ_update(edges: Seq<Seq<usize>>, i: int, e: Seq<usize>, n: usize)
    requires
        0 <= i < edges.len(),
    ensures
        occ(edges.update(i, e), n) + cnt(edges[i], n) == occ(edges, n) + cnt(e, n),
    decreases edges.len(),
{
    if i == edges.len() - 1 {
        assert(edges.update(i, e).drop_last() =~= edges.drop_last());
        assert(edges.update(i, e).last() == e);
    } else {
        assert(edges.update(i, e).drop_last() =~= edges.drop_last().update(i, e));
        assert(edges.update(i, e).last() == edges.last());
        lemma_occ_update(edges.drop_last(), i, e, n);
        assert(edges.drop_last()[i] == edges[i]);
    }
}

pub proof fn lemma_total_update(edges: Seq<Seq<usize>>, i: int, e: Seq<usize>)
    requires
        0 <= i < edges.len(),
    ensures
        total_slots(edges.update(i, e)) + edges[i].len() == total_slots(edges) + e.len(),
    decreases edges.len(),
{
    if i == edges.len() - 1 {
        assert(edges.update(i, e).drop_last() =~= edges.drop_last());
        assert(edges.update(i, e).last() == e);
    } else {
        assert(edges.update(i, e).drop_last() =~= edges.drop_last().update(i, e));
        assert(edges.update(i, e).last() == edges.last());
        lemma_total_update(edges.drop_last(), i, e);
        assert(edges.drop_last()[i] == edges[i]);
    }
}

/// Swap-style removal of edge `i` lowers each occurrence count by the removed
/// edge's own contribution.
pub proof fn lemma_occ_swap_removed(edges: Seq<Seq<usize>>, i: int, n: usize)
    requires
        0 <= i < edges.len(),
    ensures
        occ(swap_removed(edges, i), n) + cnt(edges[i], n) == occ(edges, n),
{
    let u = edges.update(i, edges.last());
    lemma_occ_update(edges, i, edges.last(), n);
    assert(u.last() == edges.last());
    assert(occ(u.drop_last(), n) == occ(u, n) - cnt(u.last(), n));
}

pub proof fn lemma_total_swap_removed(edges: Seq<Seq<usize>>, i: int)
    requires
        0 <= i < edges.len(),
    ensures
        total_slots(swap_removed(edges, i)) + edges[i].len() == total_slots(edges),
{
    let u = edges.update(i, edges.last());
    lemma_total_update(edges, i, edges.last());
    assert(u.last() == edges.last());
    assert(total_slots(u.drop_last()) == total_slots(u) - u.last().len());
}

pub proof fn lemma_needed_take_succ(e: Seq<usize>, j: int, base: nat)
    requires
        0 <= j < e.len(),
    ensures
        needed_len(e.take(j + 1), base) == if e[j] + 1 > needed_len(e.take(j), base) {
            (e[j] + 1) as nat
        } else {
            needed_len(e.take(j), base)
        },
{
    assert(e.take(j + 1).drop_last() =~= e.take(j));
    assert(e.take(j + 1).last() == e[j]);
}

pub proof fn lemma_needed_len_covers(e: Seq<usize>, base: nat)
    ensures
        base <= needed_len(e, base),
        forall|j: int| 0 <= j < e.len() ==> #[trigger] e[j] + 1 <= needed_len(e, base),
    decreases e.len(),
{
    if e.len() > 0 {
        lemma_needed_len_covers(e.drop_last(), base);
        assert forall|j: int| 0 <= j < e.len() implies #[trigger] e[j] + 1 <= needed_len(e, base)
            by {
            if j < e.len() - 1 {
                assert(e.drop_last()[j] == e[j]);
            } else {
                assert(e.last() == e[j]);
            }
        }
    }
}

pub proof fn lemma_cnt_zero(e: Seq<usize>, n: usize)
    requires
        forall|j: int| 0 <= j < e.len() ==> #[trigger] e[j] != n,
    ensures
        cnt(e, n) == 0,
    decreases e.len(),
{
    if e.len() > 0 {
        assert(forall|j: int| 0 <= j < e.len() - 1 ==> e.drop_last()[j] == #[trigger] e[j]);
        lemma_cnt_zero(e.drop_last(), n);
    }
}

/// An edge contains a node exactly when it contributes to its degree.
pub proof fn lemma_cnt_contains(e: Seq<usize>, n: usize)
    ensures
        cnt(e, n) >= 1 <==> e.contains(n),
{
    if e.contains(n) {
        let j = choose|j: int| 0 <= j < e.len() && e[j] == n;
        lemma_cnt_pos(e, j, n);
    } else {
        lemma_cnt_zero(e, n);
    }
}

/// A node contained in no edge has degree zero.
pub proof fn lemma_occ_all_zero(edges: Seq<Seq<usize>>, n: usize)
    requires
        forall|t: int| 0 <= t < edges.len() ==> cnt(#[trigger] edges[t], n) == 0,
    ensures
        occ(edges, n) == 0,
    decreases edges.len(),
{
    if edges.len() > 0 {
        assert(forall|t: int| 0 <= t < edges.len() - 1 ==> edges.drop_last()[t] == edges[t]);
        lemma_occ_all_zero(edges.drop_last(), n);
        assert(edges.last() == edges[edges.len() - 1]);
    }
}

/// A node with no degree slot occurs in no edge of a covered edge set.
pub proof fn lemma_occ_zero_above(edges: Seq<Seq<usize>>, bound: nat, n: usize)
    requires
        forall|i: int, j: int|
            0 <= i < edges.len() && 0 <= j < edges[i].len() ==> #[trigger] edges[i][j] < bound,
        n >= bound,
    ensures
        occ(edges, n) == 0,
    decreases edges.len(),
{
    if edges.len() > 0 {
        assert(forall|i: int, j: int|
            0 <= i < edges.len() - 1 && 0 <= j < edges.drop_last()[i].len()
                ==> #[trigger] edges.drop_last()[i][j] < bound) by {
            assert(forall|i: int| 0 <= i < edges.len() - 1 ==> edges.drop_last()[i] == edges[i]);
        }
        lemma_occ_zero_above(edges.drop_last(), bound, n);
        assert(forall|j: int| 0 <= j < edges.last().len() ==> #[trigger] edges.last()[j] != n)
            by {
            assert(edges.last() == edges[edges.len() - 1]);
        }
        lemma_cnt_zero(edges.last(), n);
    }
}

/// Batch removal never adds slots.
pub proof fn lemma_batch_total_le(edges: Seq<Seq<usize>>, hit: Seq<usize>, idx: Seq<usize>)
    ensures
        total_slots(batch_removed(edges, hit, idx).0) <= total_slots(edges),
    decreases idx.len(),
{
    if idx.len() > 0 {
        let i = idx.last();
        if i < edges.len() && !hit.contains(i) {
            lemma_total_swap_removed(edges, i as int);
            lemma_batch_total_le(swap_removed(edges, i as int), hit.push(i), idx.drop_last());
        } else {
            lemma_batch_total_le(edges, hit, idx.drop_last());
        }
    }
}

/// The degree table need not grow past a bound that covers the base length
/// and every node of the edge.
pub proof fn lemma_needed_len_ub(e: Seq<usize>, base: nat, bound: nat)
    requires
        base <= bound,
        forall|j: int| 0 <= j < e.len() ==> #[trigger] e[j] + 1 <= bound,
    ensures
        needed_len(e, base) <= bound,
    decreases e.len(),
{
    if e.len() > 0 {
        assert(forall|j: int| 0 <= j < e.len() - 1 ==> e.drop_last()[j] == #[trigger] e[j]);
        lemma_needed_len_ub(e.drop_last(), base, bound);
        assert(e.last() == e[e.len() - 1]);
    }
}

pub proof fn lemma_total_take_le(edges: Seq<Seq<usize>>, j: int)
    requires
        0 <= j <= edges.len(),
    ensures
        total_slots(edges.take(j)) <= total_slots(edges),
    decreases edges.len() - j,
{
    if j == edges.len() {
        assert(edges.take(j) =~= edges);
    } else {
        assert(edges.take(j + 1).drop_last() =~= edges.take(j));
        assert(total_slots(edges.take(j + 1)) == total_slots(edges.take(j)) + edges.take(
            j + 1,
        ).last().len());
        lemma_total_take_le(edges, j + 1);
    }
}

/// Edge sets whose edges have pairwise equal lengths occupy the same number
/// of slots.
pub proof fn lemma_total_slots_same_lens(a: Seq<Seq<usize>>, b: Seq<Seq<usize>>)
    requires
        a.len() == b.len(),
        forall|i: int| 0 <= i < a.len() ==> (#[trigger] a[i]).len() == b[i].len(),
    ensures
        total_slots(a) == total_slots(b),
    decreases a.len(),
{
    if a.len() > 0 {
        assert(forall|i: int|
            0 <= i < a.len() - 1 ==> (#[trigger] a.drop_last()[i]).len() == b.drop_last()[i].len());
        lemma_total_slots_same_lens(a.drop_last(), b.drop_last());
        assert(a.last().len() == b.last().len());
    }
}

/// Rank is monotone, moves by at most one per slot, and strictly increases
/// past a kept slot.
pub proof fn lemma_rank_mono(s: State, i: int, j: int, cs: usize)
    requires
        0 <= i <= j,
    ensures
        rank(s, i, cs) <= rank(s, j, cs) <= rank(s, i, cs) + (j - i),
        kept(s, i, cs) && i < j ==> rank(s, i, cs) < rank(s, j, cs),
    decreases j - i,
{
    if i < j {
        lemma_rank_mono(s, i + 1, j, cs);
    }
}

/// A kept slot's dense id lies below the kept count.
pub proof fn lemma_rank_lt_count(s: State, i: int, cs: usize)
    requires
        kept(s, i, cs),
    ensures
        rank(s, i, cs) < kept_count(s, cs),
        rank(s, i, cs) <= i,
{
    lemma_rank_mono(s, i, s.degrees.len() as int, cs);
    lemma_rank_mono(s, 0, i, cs);
}

/// Rank is the identity below a prefix of all-kept slots.
pub proof fn lemma_rank_identity(s: State, i: int, cs: usize)
    requires
        0 <= i,
        forall|t: int| 0 <= t < i ==> kept(s, t, cs),
    ensures
        rank(s, i, cs) == i,
    decreases i,
{
    if i > 0 {
        lemma_rank_identity(s, i - 1, cs);
    }
}

/// Every pair the window filter keeps is in the window, and pairs in the
/// window are kept with their protection intact.
pub proof fn lemma_recent_within_window(r: Seq<(usize, usize)>, cs: usize)
    ensures
        forall|j: int|
            0 <= j < recent_within(r, cs).len() ==> in_window(
                #[trigger] recent_within(r, cs)[j],
                cs,
            ),
        forall|n: usize| is_recent(recent_within(r, cs), n, cs) <==> is_recent(r, n, cs),
    decreases r.len(),
{
    if r.len() > 0 {
        lemma_recent_within_window(r.drop_last(), cs);
        let rw = recent_within(r, cs);
        let pw = recent_within(r.drop_last(), cs);
        assert forall|n: usize| is_recent(rw, n, cs) implies is_recent(r, n, cs) by {
            let j = choose|j: int| 0 <= j < rw.len() && rw[j].0 == n && in_window(rw[j], cs);
            if in_window(r.last(), cs) && j == rw.len() - 1 {
                assert(r[r.len() - 1] == rw[j]);
            } else {
                assert(rw[j] == pw[j]);
                assert(is_recent(pw, n, cs));
                assert(is_recent(r.drop_last(), n, cs));
                let t = choose|t: int|
                    0 <= t < r.drop_last().len() && r.drop_last()[t].0 == n && in_window(
                        #[trigger] r.drop_last()[t],
                        cs,
                    );
                assert(r[t] == r.drop_last()[t]);
            }
        }
        assert forall|n: usize| is_recent(r, n, cs) implies is_recent(rw, n, cs) by {
            let j = choose|j: int| 0 <= j < r.len() && r[j].0 == n && in_window(r[j], cs);
            if j == r.len() - 1 {
                assert(rw[rw.len() - 1] == r.last());
            } else {
                assert(r.drop_last()[j] == r[j]);
                assert(is_recent(r.drop_last(), n, cs));
                assert(is_recent(pw, n, cs));
                let t = choose|t: int| 0 <= t < pw.len() && pw[t].0 == n && in_window(pw[t], cs);
                assert(rw[t] == pw[t]);
            }
        }
    }
}

/// Filtering a list of pairs that already all lie in the window changes
/// nothing.
pub proof fn lemma_recent_within_all_in(r: Seq<(usize, usize)>, cs: usize)
    requires
        forall|j: int| 0 <= j < r.len() ==> in_window(#[trigger] r[j], cs),
    ensures
        recent_within(r, cs) == r,
    decreases r.len(),
{
    if r.len() > 0 {
        assert(forall|j: int| 0 <= j < r.len() - 1 ==> r.drop_last()[j] == #[trigger] r[j]);
        lemma_recent_within_all_in(r.drop_last(), cs);
        assert(in_window(r[r.len() - 1], cs));
        assert(recent_within(r, cs) =~= r);
    }
}

/// Degree consistency: in every well-formed state, each node's recorded
/// degree equals the number of occurrences of that node across all stored
/// hyperedges.
pub proof fn lemma_degree_consistency(s: State, n: int)
    requires
        inv_s(s),
        0 <= n < s.degrees.len(),
    ensures
        s.degrees[n] == occ(s.edges, n as usize),
{
}

/// Arity floor: in every well-formed state, each stored hyperedge has arity
/// at least 2.
pub proof fn lemma_arity_floor(s: State, i: int)
    requires
        inv_s(s),
        0 <= i < s.edges.len(),
    ensures
        s.edges[i].len() >= 2,
{
}

/// Recency protection: compaction at step `cs` keeps every node listed by an
/// in-window recent entry, even at degree 0, assigning it a dense id inside
/// the new table; a zero-degree node with no in-window entry is pruned.
pub proof fn lemma_recency_protection(s: State, n: usize, cs: usize)
    requires
        inv_s(s),
        (n as int) < s.degrees.len(),
    ensures
        is_recent(s.recent, n, cs) ==> kept(s, n as int, cs) && rank(s, n as int, cs) < cleaned(
            s,
            cs,
        ).degrees.len(),
        s.degrees[n as int] == 0 && !is_recent(s.recent, n, cs) ==> !kept(s, n as int, cs),
{
    if is_recent(s.recent, n, cs) {
        lemma_rank_lt_count(s, n as int, cs);
    }
}

/// Every node referenced by an edge of a well-formed state is kept by
/// compaction, and its dense id lies below the kept count.
pub proof fn lemma_edge_nodes_kept(s: State, cs: usize)
    requires
        inv_s(s),
    ensures
        forall|t: int, u: int|
            0 <= t < s.edges.len() && 0 <= u < s.edges[t].len() ==> kept(
                s,
                #[trigger] s.edges[t][u] as int,
                cs,
            ) && rank(s, s.edges[t][u] as int, cs) < kept_count(s, cs),
{
    assert forall|t: int, u: int|
        0 <= t < s.edges.len() && 0 <= u < s.edges[t].len() implies kept(
        s,
        #[trigger] s.edges[t][u] as int,
        cs,
    ) && rank(s, s.edges[t][u] as int, cs) < kept_count(s, cs) by {
        let orig = s.edges[t][u];
        lemma_occ_lower(s.edges, t, orig);
        lemma_cnt_pos(s.edges[t], u, orig);
        assert(s.degrees[orig as int] > 0);
        lemma_rank_lt_count(s, orig as int, cs);
    }
}

/// Compaction idempotence: compacting twice in a row at the same step number
/// yields the same state as compacting once, provided every node that
/// survives the first compaction with degree 0 is still listed as recent
/// under its new dense id. (Compaction does not remap the node ids stored in
/// the recent list, so a zero-degree node whose id changed can lose its
/// protection and be pruned by the second pass; such states are excluded
/// here.)
pub proof fn lemma_cleanup_idempotent(s: State, cs: usize)
    requires
        inv_s(s),
        forall|j: int|
            0 <= j < cleaned(s, cs).degrees.len() && cleaned(s, cs).degrees[j] == 0 ==> is_recent(
                cleaned(s, cs).recent,
                j as usize,
                cs,
            ),
    ensures
        cleaned(cleaned(s, cs), cs) == cleaned(s, cs),
{
    let t = cleaned(s, cs);
    let kc = kept_count(s, cs);
    assert(t.degrees.len() == kc);
    assert forall|j: int| 0 <= j < t.degrees.len() implies kept(t, j, cs) by {
        if t.degrees[j] == 0 {
            assert(is_recent(t.recent, j as usize, cs));
        }
    }
    lemma_rank_identity(t, t.degrees.len() as int, cs);
    assert forall|j: int| 0 <= j <= t.degrees.len() implies rank(t, j, cs) == j by {
        lemma_rank_identity(t, j, cs);
    }
    assert(kept_count(t, cs) == kc);
    lemma_edge_nodes_kept(s, cs);
    assert forall|a: int, b: int|
        0 <= a < t.edges.len() && 0 <= b < t.edges[a].len() implies (#[trigger] t.edges[a][b] as int)
        < kc by {
        assert(t.edges[a] == s.edges.map_values(
            |e: Seq<usize>| e.map_values(|n: usize| rank(s, n as int, cs) as usize),
        )[a]);
        assert(t.edges[a][b] == rank(s, s.edges[a][b] as int, cs) as usize);
    }
    let u = cleaned(t, cs);
    assert forall|a: int| 0 <= a < u.edges.len() implies u.edges[a] =~= t.edges[a] by {
        assert(u.edges[a] == t.edges[a].map_values(|n: usize| rank(t, n as int, cs) as usize));
        assert forall|b: int| 0 <= b < t.edges[a].len() implies u.edges[a][b] == t.edges[a][b] by {
            assert(rank(t, t.edges[a][b] as int, cs) == t.edges[a][b] as int);
        }
    }
    assert(u.edges =~~= t.edges);
    assert(u.degrees =~= t.degrees);
    lemma_recent_within_window(s.recent, cs);
    lemma_recent_within_all_in(t.recent, cs);
    assert(u =~~= t);
}

} // verus!

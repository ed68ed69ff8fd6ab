//! The hypergraph store: hyperedge collection, per-node degree counters, the
//! high-water node id, and the short-lived record of recently created nodes.

use vstd::prelude::*;

use crate::model::{
    added, batch_removed, cleaned, cnt, count_active, in_window, inv_s, is_recent, kept,
    kept_count,
    lemma_cnt_contains, lemma_cnt_le_len, lemma_cnt_pos, lemma_cnt_take_le, lemma_cnt_take_succ,
    lemma_cnt_zero, lemma_needed_len_covers, lemma_occ_all_zero,
    lemma_needed_take_succ, lemma_occ_le_total, lemma_occ_lower, lemma_occ_push,
    lemma_occ_swap_removed, lemma_occ_take_succ, lemma_occ_zero_above,
    lemma_insert_sorted_at, lemma_rank_lt_count, lemma_rank_mono, lemma_sort_asc_props,
    lemma_total_push, lemma_total_slots_same_lens, lemma_total_swap_removed, lemma_total_take_le,
    needed_len, node_added, occ, rank, recent_within, removed_batch, sort_asc, swap_removed,
    total_slots, State,
};

verus! {

/// Linear membership scan, used to skip indices already removed in a batch.
fn contains_index(v: &Vec<usize>, x: usize) -> (b: bool)
    ensures
        b == v@.contains(x),
{
    let n = v.len();
    for k in 0..n
        invariant
            n == v@.len(),
            forall|t: int| 0 <= t < k ==> v@[t] != x,
    {
        if v[k] == x {
            return true;
        }
    }
    proof {
        if v@.contains(x) {
            let w = choose|w: int| 0 <= w < v@.len() && v@[w] == x;
            assert(v@[w] != x);
        }
    }
    false
}

/// Insertion sort, ascending: batch removal processes removal positions from
/// the highest to the lowest, so the given positions are sorted first.
#[verifier::loop_isolation(false)]
fn sort_ascending(indices: &[usize]) -> (r: Vec<usize>)
    ensures
        r@ == sort_asc(indices@),
{
    let mut r: Vec<usize> = Vec::new();
    let n = indices.len();
    proof {
        assert(indices@.take(0) =~= Seq::<usize>::empty());
    }
    for i in 0..n
        invariant
            n == indices@.len(),
            r@ == sort_asc(indices@.take(i as int)),
    {
        let x = indices[i];
        proof {
            lemma_sort_asc_props(indices@.take(i as int));
        }
        let mut j: usize = 0;
        while j < r.len() && r[j] <= x
            invariant
                j <= r@.len(),
                forall|t: int| 0 <= t < j ==> r@[t] <= x,
            decreases r@.len() - j,
        {
            j = j + 1;
        }
        proof {
            assert(indices@.take(i as int + 1).drop_last() =~= indices@.take(i as int));
            assert(indices@.take(i as int + 1).last() == x);
            lemma_insert_sorted_at(r@, x, j as int);
        }
        r.insert(j, x);
    }
    proof {
        assert(indices@.take(n as int) =~= indices@);
    }
    r
}

/// The discovered region hangs together: every edge in `r` either contains
/// the seed itself or shares at least one endpoint with an earlier-discovered
/// edge.
pub open spec fn region_connected(es: Seq<Seq<usize>>, r: Seq<usize>, node: usize) -> bool {
    forall|a: int|
        0 <= a < r.len() ==> es[#[trigger] r[a] as int].contains(node) || exists|b: int, x: usize|
            0 <= b < a && es[r[b] as int].contains(x) && es[r[a] as int].contains(x)
}

/// Appending one more edge index keeps the discovered region connected,
/// provided the new edge contains the seed or shares an endpoint with an
/// earlier edge; queued endpoints keep their witnesses too.
proof fn lemma_region_extends(
    es: Seq<Seq<usize>>,
    rpre: Seq<usize>,
    rnew: Seq<usize>,
    q: Seq<usize>,
    node: usize,
)
    requires
        rnew.len() == rpre.len() + 1,
        rnew == rpre.push(rnew[rnew.len() - 1]),
        region_connected(es, rpre, node),
        es[rnew[rnew.len() - 1] as int].contains(node) || exists|b: int, x: usize|
            0 <= b < rpre.len() && es[rpre[b] as int].contains(x)
                && es[rnew[rnew.len() - 1] as int].contains(x),
        forall|t: int|
            0 <= t < q.len() ==> exists|b: int|
                0 <= b < rpre.len() && es[rpre[b] as int].contains(#[trigger] q[t]),
    ensures
        region_connected(es, rnew, node),
        forall|t: int|
            0 <= t < q.len() ==> exists|b: int|
                0 <= b < rnew.len() && es[rnew[b] as int].contains(#[trigger] q[t]),
{
    assert(forall|b: int| 0 <= b < rpre.len() ==> rnew[b] == #[trigger] rpre[b]);
    assert forall|a: int|
        0 <= a < rnew.len() implies es[#[trigger] rnew[a] as int].contains(node) || exists|
        b: int,
        x: usize,
    | 0 <= b < a && es[rnew[b] as int].contains(x) && es[rnew[a] as int].contains(x) by {
        if a < rpre.len() {
            if !es[rpre[a] as int].contains(node) {
                let (b, x): (int, usize) = choose|b: int, x: usize|
                    0 <= b < a && es[rpre[b] as int].contains(x) && es[rpre[a] as int].contains(x);
                assert(es[rnew[b] as int].contains(x) && es[rnew[a] as int].contains(x));
            }
        } else {
            if !es[rnew[a] as int].contains(node) {
                let (b, x): (int, usize) = choose|b: int, x: usize|
                    0 <= b < rpre.len() && es[rpre[b] as int].contains(x) && es[rnew[rnew.len()
                        - 1] as int].contains(x);
                assert(es[rnew[b] as int].contains(x) && es[rnew[a] as int].contains(x));
            }
        }
    }
    assert forall|t: int|
        0 <= t < q.len() implies exists|b: int|
        0 <= b < rnew.len() && es[rnew[b] as int].contains(#[trigger] q[t]) by {
        let b = choose|b: int| 0 <= b < rpre.len() && es[rpre[b] as int].contains(q[t]);
        assert(es[rnew[b] as int].contains(q[t]));
    }
}

/// A sparse hypergraph over integer node ids with degree bookkeeping.
pub struct Hypergraph {
    edges: Vec<Vec<usize>>,
    degrees: Vec<usize>,
    max_node_id: usize,
    recent_nodes: Vec<(usize, usize)>,
}

impl Hypergraph {
    /// The abstract state this store represents.
    pub closed spec fn abs(self) -> State {
        State {
            edges: self.edges.deep_view(),
            degrees: self.degrees@,
            max_node_id: self.max_node_id as nat,
            recent: self.recent_nodes@,
        }
    }

    /// Well-formedness of the store, stated over its abstract state.
    pub open spec fn inv(self) -> bool {
        inv_s(self.abs())
    }

    pub fn new() -> (hg: Hypergraph)
        ensures
            hg.inv(),
            hg.abs() == (State {
                edges: Seq::<Seq<usize>>::empty(),
                degrees: Seq::<usize>::empty(),
                max_node_id: 0,
                recent: Seq::<(usize, usize)>::empty(),
            }),
    {
        let hg = Hypergraph {
            edges: Vec::new(),
            degrees: Vec::new(),
            max_node_id: 0,
            recent_nodes: Vec::new(),
        };
        proof {
            assert(hg.abs().edges =~= Seq::<Seq<usize>>::empty());
        }
        hg
    }

    /// Inserts one hyperedge. Edges of arity below 2 are silently dropped;
    /// otherwise the degree table grows (zero-filled) to cover every referenced
    /// node, each occurrence raises that node's degree by one, and the edge is
    /// appended.
    #[verifier::loop_isolation(false)]
    pub fn add_hyperedge(&mut self, edge: Vec<usize>)
        requires
            old(self).inv(),
            total_slots(old(self).abs().edges) + edge@.len() <= usize::MAX,
            forall|j: int| 0 <= j < edge@.len() ==> #[trigger] edge@[j] < usize::MAX,
        ensures
            final(self).inv(),
            final(self).abs() == added(old(self).abs(), edge@),
    {
        if edge.len() < 2 {
            return ;
        }
        let ghost s0 = self.abs();
        let ghost e = edge@;
        let n_slots = edge.len();
        for k in 0..n_slots
            invariant
                self.edges@ == old(self).edges@,
                self.recent_nodes@ == old(self).recent_nodes@,
                self.degrees@.len() == needed_len(e.take(k as int), s0.degrees.len()),
                self.max_node_id + 1 == if s0.max_node_id + 1 >= needed_len(
                    e.take(k as int),
                    s0.degrees.len(),
                ) {
                    (s0.max_node_id + 1) as int
                } else {
                    needed_len(e.take(k as int), s0.degrees.len()) as int
                },
                forall|n: int|
                    0 <= n < self.degrees@.len() ==> #[trigger] self.degrees@[n] == (if n
                        < s0.degrees.len() {
                        s0.degrees[n] as int
                    } else {
                        0
                    }) + cnt(e.take(k as int), n as usize),
        {
            let node = edge[k];
            proof {
                lemma_needed_take_succ(e, k as int, s0.degrees.len());
                lemma_needed_len_covers(e.take(k as int), s0.degrees.len());
            }
            let ghost pre = self.degrees@;
            if node >= self.degrees.len() {
                self.degrees.resize(node + 1, 0);
                self.max_node_id = if self.max_node_id >= node {
                    self.max_node_id
                } else {
                    node
                };
                proof {
                    assert(self.degrees@.subrange(0, pre.len() as int) == pre);
                    assert forall|n: int| 0 <= n < self.degrees@.len() implies
                        #[trigger] self.degrees@[n] == (if n < s0.degrees.len() {
                        s0.degrees[n] as int
                    } else {
                        0
                    }) + cnt(e.take(k as int), n as usize) by {
                        if n < pre.len() {
                            assert(self.degrees@[n] == self.degrees@.subrange(
                                0,
                                pre.len() as int,
                            )[n]);
                        } else {
                            assert(self.degrees@[n] == 0);
                            lemma_cnt_zero(e.take(k as int), n as usize);
                        }
                    }
                }
            }
            proof {
                if (node as int) < s0.degrees.len() {
                    lemma_occ_le_total(s0.edges, node);
                }
                lemma_cnt_le_len(e.take(k as int), node);
                assert(self.degrees@[node as int] + 1 <= usize::MAX);
            }
            let d = self.degrees[node];
            self.degrees[node] = d.saturating_add(1);
            proof {
                assert forall|n: int| 0 <= n < self.degrees@.len() implies #[trigger] self.degrees@[n]
                    == (if n < s0.degrees.len() {
                    s0.degrees[n] as int
                } else {
                    0
                }) + cnt(e.take(k as int + 1), n as usize) by {
                    lemma_cnt_take_succ(e, k as int, n as usize);
                }
            }
        }
        proof {
            assert(e.take(n_slots as int) =~= e);
        }
        self.edges.push(edge);
        proof {
            let ne = s0.edges.push(e);
            assert(self.edges.deep_view() =~~= ne);
            lemma_total_push(s0.edges, e);
            lemma_needed_len_covers(e, s0.degrees.len());
            assert forall|n: int| 0 <= n < self.degrees@.len() implies #[trigger] self.degrees@[n]
                == occ(ne, n as usize) by {
                lemma_occ_push(s0.edges, e, n as usize);
                if n >= s0.degrees.len() {
                    lemma_occ_zero_above(s0.edges, s0.degrees.len(), n as usize);
                }
            }
            assert(self.abs().degrees =~= added(s0, e).degrees);
            assert(self.abs() =~~= added(s0, e));
            assert forall|i: int, j: int|
                0 <= i < ne.len() && 0 <= j < ne[i].len() implies #[trigger] ne[i][j]
                < self.degrees@.len() by {}
        }
    }

    /// Removes a batch of hyperedges by position, swap-style, processing the
    /// positions from the highest to the lowest (the given indices are sorted
    /// first, so remaining positions stay valid). Out-of-range indices are
    /// ignored and an index repeated in the batch is not removed (or
    /// decremented) twice. Each removed edge lowers every endpoint's degree
    /// once per occurrence.
    #[verifier::loop_isolation(false)]
    pub fn remove_hyperedges(&mut self, indices: &[usize])
        requires
            old(self).inv(),
        ensures
            final(self).inv(),
            final(self).abs() == removed_batch(old(self).abs(), sort_asc(indices@)),
    {
        let ghost s0 = self.abs();
        let sorted = sort_ascending(indices);
        let ghost idx = sort_asc(indices@);
        let mut removed: Vec<usize> = Vec::new();
        let n = sorted.len();
        proof {
            assert(idx.take(n as int) =~= idx);
        }
        for k in 0..n
            invariant
                n == idx.len(),
                sorted@ == idx,
                inv_s(self.abs()),
                self.degrees@.len() == s0.degrees.len(),
                self.max_node_id as nat == s0.max_node_id,
                self.recent_nodes@ == s0.recent,
                batch_removed(self.edges.deep_view(), removed@, idx.take((n - k) as int))
                    == batch_removed(s0.edges, Seq::<usize>::empty(), idx),
        {
            let i = sorted[n - 1 - k];
            proof {
                assert(idx.take((n - k) as int).last() == i);
                assert(idx.take((n - k) as int).drop_last() =~= idx.take((n - k - 1) as int));
            }
            let hit = contains_index(&removed, i);
            if i < self.edges.len() && !hit {
                let ghost cur = self.edges.deep_view();
                let m = self.edges[i].len();
                for j in 0..m
                    invariant
                        i < self.edges@.len(),
                        self.edges.deep_view() == cur,
                        m == cur[i as int].len(),
                        self.max_node_id as nat == s0.max_node_id,
                        self.recent_nodes@ == s0.recent,
                        total_slots(cur) <= usize::MAX,
                        forall|t: int| 0 <= t < cur.len() ==> (#[trigger] cur[t]).len() >= 2,
                        self.degrees@.len() == s0.degrees.len(),
                        forall|t: int, u: int|
                            0 <= t < cur.len() && 0 <= u < cur[t].len() ==> #[trigger] cur[t][u]
                                < self.degrees@.len(),
                        forall|d: int|
                            0 <= d < self.degrees@.len() ==> #[trigger] self.degrees@[d] + cnt(
                                cur[i as int].take(j as int),
                                d as usize,
                            ) == occ(cur, d as usize),
                {
                    let node = self.edges[i][j];
                    proof {
                        lemma_occ_lower(cur, i as int, node);
                        lemma_cnt_take_succ(cur[i as int], j as int, node);
                        lemma_cnt_take_le(cur[i as int], j as int + 1, node);
                        assert(self.degrees@[node as int] > 0);
                    }
                    let d = self.degrees[node];
                    if d > 0 {
                        self.degrees[node] = d.saturating_sub(1);
                    }
                    proof {
                        assert forall|t: int| 0 <= t < self.degrees@.len() implies
                            #[trigger] self.degrees@[t] + cnt(
                            cur[i as int].take(j as int + 1),
                            t as usize,
                        ) == occ(cur, t as usize) by {
                            lemma_cnt_take_succ(cur[i as int], j as int, t as usize);
                        }
                    }
                }
                proof {
                    assert(cur[i as int].take(m as int) =~= cur[i as int]);
                }
                self.edges.swap_remove(i);
                removed.push(i);
                proof {
                    assert(self.edges.deep_view() =~~= swap_removed(cur, i as int));
                    assert forall|d: int| 0 <= d < self.degrees@.len() implies
                        #[trigger] self.degrees@[d] == occ(
                        self.edges.deep_view(),
                        d as usize,
                    ) by {
                        lemma_occ_swap_removed(cur, i as int, d as usize);
                    }
                    lemma_total_swap_removed(cur, i as int);
                    assert forall|t: int|
                        0 <= t < self.edges.deep_view().len() implies (#[trigger] self.edges.deep_view()[t]).len()
                        >= 2 by {
                        let sw = swap_removed(cur, i as int);
                        assert(sw[t] == cur.update(i as int, cur.last())[t]);
                    }
                    assert forall|t: int, u: int|
                        0 <= t < self.edges.deep_view().len() && 0 <= u
                            < self.edges.deep_view()[t].len() implies
                        #[trigger] self.edges.deep_view()[t][u] < self.degrees@.len() by {
                        let sw = swap_removed(cur, i as int);
                        if t == i {
                            assert(sw[t] == cur.update(i as int, cur.last())[t]);
                        }
                    }
                }
            }
        }
        proof {
            assert(idx.take(0) =~= Seq::<usize>::empty());
            let target = removed_batch(s0, idx);
            assert(self.edges.deep_view() == target.edges);
            assert(self.abs().degrees =~= target.degrees);
            assert(self.abs() =~~= target);
        }
    }

    /// Registers a fresh node id (current maximum plus one), grows the degree
    /// table (zero-filled) so that it covers the fresh id with degree 0, and
    /// records (id, step) as recent.
    pub fn add_node(&mut self, step: usize) -> (id: usize)
        requires
            old(self).inv(),
            old(self).abs().max_node_id + 2 <= usize::MAX,
        ensures
            final(self).inv(),
            final(self).abs() == node_added(old(self).abs(), step),
            id == old(self).abs().max_node_id + 1,
            (id as int) < final(self).abs().degrees.len(),
            final(self).abs().degrees[id as int] == 0,
    {
        let ghost s0 = self.abs();
        self.max_node_id = self.max_node_id + 1;
        let id = self.max_node_id;
        let ghost pre = self.degrees@;
        if id >= self.degrees.len() {
            self.degrees.resize(id + 1, 0);
        }
        self.recent_nodes.push((id, step));
        proof {
            assert(self.edges.deep_view() =~~= s0.edges);
            assert(s0.degrees.len() <= id);
            assert(self.degrees@.subrange(0, pre.len() as int) == pre);
            assert forall|n: int| 0 <= n < self.degrees@.len() implies #[trigger] self.degrees@[n]
                == occ(s0.edges, n as usize) by {
                if n < pre.len() {
                    assert(self.degrees@[n] == self.degrees@.subrange(0, pre.len() as int)[n]);
                } else {
                    assert(self.degrees@[n] == 0);
                    lemma_occ_zero_above(s0.edges, s0.degrees.len(), n as usize);
                }
            }
            assert(self.abs().degrees =~= node_added(s0, step).degrees);
            assert(self.abs() =~~= node_added(s0, step));
        }
        id
    }

    /// Number of nodes with positive degree.
    pub fn node_count(&self) -> (r: usize)
        ensures
            r == count_active(self.abs().degrees, self.abs().degrees.len() as int),
    {
        let mut r: usize = 0;
        let n = self.degrees.len();
        for i in 0..n
            invariant
                n == self.degrees@.len(),
                r == count_active(self.degrees@, i as int),
                r <= i,
        {
            if self.degrees[i] > 0 {
                r = r + 1;
            }
        }
        r
    }

    /// Number of stored hyperedges.
    pub fn edge_count(&self) -> (r: usize)
        ensures
            r == self.abs().edges.len(),
    {
        self.edges.len()
    }

    /// Bounded breadth-first edge discovery around `node`: first every edge
    /// directly containing the node (up to `max_size`), then edges reached
    /// through shared endpoints in first-in-first-out order, still capped at
    /// `max_size`. This is a breadth-limited approximation of a connected
    /// region, not a full connected-component or shortest-path computation.
    /// Returns the empty list when the node is out of range or has degree 0.
    #[verifier::loop_isolation(false)]
    pub fn local_connected(&self, node: usize, max_size: usize) -> (r: Vec<usize>)
        requires
            self.inv(),
        ensures
            r@.len() <= max_size,
            forall|a: int| 0 <= a < r@.len() ==> #[trigger] r@[a] < self.abs().edges.len(),
            forall|a: int, b: int| 0 <= a < b < r@.len() ==> r@[a] != r@[b],
            node >= self.abs().degrees.len() || self.abs().degrees[node as int] == 0 ==> r@.len()
                == 0,
            node < self.abs().degrees.len() && self.abs().degrees[node as int] > 0 && max_size > 0
                ==> r@.len() >= 1 && self.abs().edges[r@[0] as int].contains(node) && (forall|
                t: int| 0 <= t < r@[0] ==> !self.abs().edges[t].contains(node)),
            region_connected(self.abs().edges, r@, node),
            r@.len() < max_size ==> forall|t: int|
                0 <= t < self.abs().edges.len() && self.abs().edges[t].contains(node)
                    ==> r@.contains(t as usize),
    {
        if node >= self.degrees.len() || self.degrees[node] == 0 {
            proof {
                let es0 = self.abs().edges;
                assert forall|t: int|
                    0 <= t < es0.len() implies !es0[t].contains(node) by {
                    if es0[t].contains(node) {
                        let w = choose|w: int| 0 <= w < es0[t].len() && es0[t][w] == node;
                        if (node as int) < self.degrees@.len() {
                            lemma_cnt_pos(es0[t], w, node);
                            lemma_occ_lower(es0, t, node);
                        } else {
                            assert(es0[t][w] < self.degrees@.len());
                        }
                    }
                }
            }
            return Vec::new();
        }
        let ghost es = self.abs().edges;
        let mut visited: Vec<usize> = Vec::new();
        let mut queue: Vec<usize> = Vec::new();
        let mut result: Vec<usize> = Vec::new();
        let ne = self.edges.len();
        for i in 0..ne
            invariant
                ne == es.len(),
                result@.len() <= max_size,
                visited@ == result@,
                forall|a: int| 0 <= a < result@.len() ==> #[trigger] result@[a] < es.len(),
                forall|a: int, b: int| 0 <= a < b < result@.len() ==> result@[a] != result@[b],
                result@.len() > 0 ==> es[result@[0] as int].contains(node) && (forall|t: int|
                    0 <= t < result@[0] ==> !es[t].contains(node)),
                forall|a: int| 0 <= a < result@.len() ==> #[trigger] result@[a] < i,
                result@.len() == 0 ==> queue@.len() == 0,
                result@.len() == 0 && max_size > 0 ==> forall|t: int|
                    0 <= t < i ==> !es[t].contains(node),
                result@.len() < max_size ==> forall|t: int|
                    0 <= t < i && es[t].contains(node) ==> result@.contains(t as usize),
                region_connected(es, result@, node),
                forall|q: int|
                    0 <= q < queue@.len() ==> exists|b: int|
                        0 <= b < result@.len() && es[result@[b] as int].contains(
                            #[trigger] queue@[q],
                        ),
        {
            proof {
                assert(es[i as int] =~= self.edges@[i as int]@);
            }
            let present = contains_index(&self.edges[i], node);
            if present && result.len() < max_size {
                let ghost rpre = result@;
                result.push(i);
                visited.push(i);
                proof {
                    assert(region_connected(es, result@, node) && (forall|q: int|
                        0 <= q < queue@.len() ==> exists|b: int|
                            0 <= b < result@.len() && es[result@[b] as int].contains(
                                #[trigger] queue@[q],
                            ))) by {
                        lemma_region_extends(es, rpre, result@, queue@, node);
                    }
                    assert forall|t: int|
                        result@.len() < max_size && 0 <= t < i + 1 && es[t].contains(
                            node,
                        ) implies result@.contains(t as usize) by {
                        if t < i {
                            assert(rpre.contains(t as usize));
                            let w = choose|w: int| 0 <= w < rpre.len() && rpre[w] == t as usize;
                            assert(result@[w] == t as usize);
                        } else {
                            assert(result@[result@.len() - 1] == i as usize);
                        }
                    }
                }
                let m = self.edges[i].len();
                for j in 0..m
                    invariant
                        i < self.edges@.len(),
                        m == self.edges@[i as int]@.len(),
                        result@.len() > 0 && result@[result@.len() - 1] == i,
                        forall|q: int|
                            0 <= q < queue@.len() ==> exists|b: int|
                                0 <= b < result@.len() && es[result@[b] as int].contains(
                                    #[trigger] queue@[q],
                                ),
                {
                    let other = self.edges[i][j];
                    proof {
                        assert(es[i as int][j as int] == other);
                        assert(es[result@[result@.len() - 1] as int].contains(other));
                    }
                    queue.push(other);
                }
            }
        }
        proof {
            if result@.len() == 0 && max_size > 0 && self.degrees@[node as int] > 0 {
                assert forall|t: int| 0 <= t < es.len() implies cnt(es[t], node) == 0 by {
                    lemma_cnt_contains(es[t], node);
                }
                lemma_occ_all_zero(es, node);
            }
        }
        let ghost p1 = result@.len();
        while queue.len() > 0 && result.len() < max_size
            invariant
                ne == es.len(),
                p1 <= result@.len() <= max_size,
                visited@ == result@,
                forall|a: int| 0 <= a < result@.len() ==> #[trigger] result@[a] < es.len(),
                forall|a: int, b: int| 0 <= a < b < result@.len() ==> result@[a] != result@[b],
                result@.len() > 0 ==> es[result@[0] as int].contains(node) && (forall|t: int|
                    0 <= t < result@[0] ==> !es[t].contains(node)),
                result@.len() == 0 ==> queue@.len() == 0,
                region_connected(es, result@, node),
                result@.len() < max_size ==> forall|t: int|
                    0 <= t < es.len() && es[t].contains(node) ==> result@.contains(t as usize),
                forall|q: int|
                    0 <= q < queue@.len() ==> exists|b: int|
                        0 <= b < result@.len() && es[result@[b] as int].contains(
                            #[trigger] queue@[q],
                        ),
            decreases max_size - result@.len(), queue@.len(),
        {
            let ghost qpre = queue@;
            let frontier = queue.remove(0);
            proof {
                assert(qpre[0] == frontier);
                assert(forall|q: int| 0 <= q < queue@.len() ==> queue@[q] == qpre[q + 1]);
            }
            let ghost r0 = result@.len();
            let ghost q0 = queue@.len();
            for i in 0..ne
                invariant
                    ne == es.len(),
                    result@.len() <= max_size,
                    1 <= r0 <= result@.len(),
                    result@.len() == r0 ==> queue@.len() == q0,
                    visited@ == result@,
                    forall|a: int| 0 <= a < result@.len() ==> #[trigger] result@[a] < es.len(),
                    forall|a: int, b: int| 0 <= a < b < result@.len() ==> result@[a] != result@[b],
                    result@.len() > 0 ==> es[result@[0] as int].contains(node) && (forall|t: int|
                        0 <= t < result@[0] ==> !es[t].contains(node)),
                    region_connected(es, result@, node),
                    result@.len() < max_size ==> forall|t: int|
                        0 <= t < es.len() && es[t].contains(node) ==> result@.contains(t as usize),
                    exists|b: int|
                        0 <= b < result@.len() && es[result@[b] as int].contains(frontier),
                    forall|q: int|
                        0 <= q < queue@.len() ==> exists|b: int|
                            0 <= b < result@.len() && es[result@[b] as int].contains(
                                #[trigger] queue@[q],
                            ),
            {
                proof {
                    assert(es[i as int] =~= self.edges@[i as int]@);
                }
                let seen = contains_index(&visited, i);
                if !seen && result.len() < max_size {
                    let present = contains_index(&self.edges[i], frontier);
                    if present {
                        let ghost rpre = result@;
                        result.push(i);
                        visited.push(i);
                        proof {
                            let a = result@.len() - 1;
                            let b = choose|b: int|
                                0 <= b < rpre.len() && es[rpre[b] as int].contains(frontier);
                            assert(result@[b] == rpre[b]);
                            assert(es[result@[b] as int].contains(frontier) && es[result@[a] as int].contains(
                                frontier,
                            ));
                            assert(es[rpre[b] as int].contains(frontier) && es[result@[result@.len()
                                - 1] as int].contains(frontier));
                            lemma_region_extends(es, rpre, result@, queue@, node);
                            assert forall|t: int|
                                result@.len() < max_size && 0 <= t < es.len() && es[t].contains(
                                    node,
                                ) implies result@.contains(t as usize) by {
                                assert(rpre.contains(t as usize));
                                let w = choose|w: int|
                                    0 <= w < rpre.len() && rpre[w] == t as usize;
                                assert(result@[w] == t as usize);
                            }
                        }
                        let m = self.edges[i].len();
                        for j in 0..m
                            invariant
                                i < self.edges@.len(),
                                m == self.edges@[i as int]@.len(),
                                result@.len() > 0 && result@[result@.len() - 1] == i,
                                forall|q: int|
                                    0 <= q < queue@.len() ==> exists|b: int|
                                        0 <= b < result@.len() && es[result@[b] as int].contains(
                                            #[trigger] queue@[q],
                                        ),
                        {
                            let other = self.edges[i][j];
                            let queued = contains_index(&queue, other);
                            if !queued {
                                proof {
                                    assert(es[i as int][j as int] == other);
                                    assert(es[result@[result@.len() - 1] as int].contains(other));
                                }
                                queue.push(other);
                            }
                        }
                    }
                }
            }
        }
        result
    }

    /// Compaction: a node is kept when its degree is positive or it was added
    /// within the last 10 steps (inclusive); kept nodes are remapped to a
    /// dense id range in ascending order; every edge is rewritten under the
    /// remapping (references to pruned nodes would be dropped, and an edge
    /// left below arity 2 discarded); degrees are recomputed from the
    /// rewritten edges; the high-water id becomes the kept count minus one
    /// (floored at 0); and the recent list keeps only in-window entries.
    #[verifier::loop_isolation(false)]
    #[verifier::rlimit(100)]
    pub fn cleanup(&mut self, current_step: usize)
        requires
            old(self).inv(),
        ensures
            final(self).inv(),
            final(self).abs() == cleaned(old(self).abs(), current_step),
    {
        let ghost s0 = self.abs();
        let cs = current_step;
        let ghost emap = |e: Seq<usize>| e.map_values(|n: usize| rank(s0, n as int, cs) as usize);
        let ghost ne = s0.edges.map_values(emap);
        let dlen = self.degrees.len();
        let mut node_map: Vec<Option<usize>> = Vec::new();
        let mut new_id: usize = 0;
        for i in 0..dlen
            invariant
                dlen == s0.degrees.len(),
                node_map@.len() == i,
                new_id == rank(s0, i as int, cs),
                new_id <= i,
                forall|t: int|
                    0 <= t < i ==> #[trigger] node_map@[t] == if kept(s0, t, cs) {
                        Some(rank(s0, t, cs) as usize)
                    } else {
                        None::<usize>
                    },
        {
            let mut rec = false;
            let rn = self.recent_nodes.len();
            for j in 0..rn
                invariant
                    rn == s0.recent.len(),
                    rec == exists|t: int|
                        0 <= t < j && s0.recent[t].0 == i && in_window(#[trigger] s0.recent[t], cs),
            {
                let p = self.recent_nodes[j];
                if p.0 == i && p.1 <= cs && cs - p.1 <= 10 {
                    rec = true;
                    proof {
                        assert(s0.recent[j as int].0 == i && in_window(s0.recent[j as int], cs));
                    }
                }
            }
            proof {
                assert(rec == is_recent(s0.recent, i, cs));
            }
            if self.degrees[i] > 0 || rec {
                node_map.push(Some(new_id));
                new_id = new_id + 1;
            } else {
                node_map.push(None);
            }
        }
        proof {
            assert(new_id == kept_count(s0, cs));
        }
        let en = self.edges.len();
        let mut new_edges: Vec<Vec<usize>> = Vec::new();
        for k in 0..en
            invariant
                en == s0.edges.len(),
                self.edges.deep_view() == s0.edges,
                self.degrees@ == s0.degrees,
                node_map@.len() == s0.degrees.len(),
                forall|t: int|
                    0 <= t < node_map@.len() ==> #[trigger] node_map@[t] == if kept(s0, t, cs) {
                        Some(rank(s0, t, cs) as usize)
                    } else {
                        None::<usize>
                    },
                new_edges.deep_view() == s0.edges.take(k as int).map_values(emap),
        {
            proof {
                assert(s0.edges[k as int] =~= self.edges@[k as int]@);
            }
            let m = self.edges[k].len();
            let mut new_edge: Vec<usize> = Vec::new();
            for j in 0..m
                invariant
                    k < self.edges@.len(),
                    self.edges.deep_view() == s0.edges,
                    self.degrees@ == s0.degrees,
                    m == s0.edges[k as int].len(),
                    node_map@.len() == s0.degrees.len(),
                    forall|t: int|
                        0 <= t < node_map@.len() ==> #[trigger] node_map@[t] == if kept(
                            s0,
                            t,
                            cs,
                        ) {
                            Some(rank(s0, t, cs) as usize)
                        } else {
                            None::<usize>
                        },
                    new_edge@ == s0.edges[k as int].take(j as int).map_values(
                        |n: usize| rank(s0, n as int, cs) as usize,
                    ),
            {
                let node = self.edges[k][j];
                proof {
                    assert(s0.edges[k as int][j as int] == node);
                    lemma_occ_lower(s0.edges, k as int, node);
                    lemma_cnt_pos(s0.edges[k as int], j as int, node);
                    assert(s0.degrees[node as int] > 0);
                    assert(kept(s0, node as int, cs));
                    assert(s0.edges[k as int].take(j as int + 1).drop_last() =~= s0.edges[k as int].take(
                        j as int,
                    ));
                }
                match node_map[node] {
                    Some(mapped) => {
                        new_edge.push(mapped);
                        proof {
                            assert(new_edge@ =~= s0.edges[k as int].take(j as int + 1).map_values(
                                |n: usize| rank(s0, n as int, cs) as usize,
                            ));
                        }
                    },
                    None => {},
                }
            }
            proof {
                assert(s0.edges[k as int].take(m as int) =~= s0.edges[k as int]);
                assert(new_edge@ == emap(s0.edges[k as int]));
            }
            if new_edge.len() >= 2 {
                let ghost prev_deep = new_edges.deep_view();
                new_edges.push(new_edge);
                proof {
                    assert(new_edges.deep_view() =~~= prev_deep.push(new_edge@));
                    assert(new_edges.deep_view() =~~= s0.edges.take(k as int + 1).map_values(emap));
                }
            }
        }
        proof {
            assert(s0.edges.take(en as int) =~= s0.edges);
            assert(new_edges.deep_view() == ne);
            assert forall|t: int, u: int|
                0 <= t < ne.len() && 0 <= u < ne[t].len() implies #[trigger] ne[t][u]
                < kept_count(s0, cs) by {
                let orig = s0.edges[t][u];
                lemma_occ_lower(s0.edges, t, orig);
                lemma_cnt_pos(s0.edges[t], u, orig);
                assert(kept(s0, orig as int, cs));
                lemma_rank_lt_count(s0, orig as int, cs);
            }
            lemma_total_slots_same_lens(ne, s0.edges);
        }
        self.edges = new_edges;
        let mut new_degrees: Vec<usize> = Vec::new();
        for _z in 0..new_id
            invariant
                new_degrees@.len() == _z,
                forall|t: int| 0 <= t < _z ==> #[trigger] new_degrees@[t] == 0,
        {
            new_degrees.push(0);
        }
        self.degrees = new_degrees;
        let en2 = self.edges.len();
        for k in 0..en2
            invariant
                en2 == ne.len(),
                self.edges.deep_view() == ne,
                self.recent_nodes@ == s0.recent,
                self.degrees@.len() == new_id,
                new_id == kept_count(s0, cs),
                forall|t: int, u: int|
                    0 <= t < ne.len() && 0 <= u < ne[t].len() ==> #[trigger] ne[t][u] < new_id,
                total_slots(ne) <= usize::MAX,
                forall|d: int|
                    0 <= d < new_id ==> #[trigger] self.degrees@[d] == occ(
                        ne.take(k as int),
                        d as usize,
                    ),
        {
            proof {
                assert(ne[k as int] =~= self.edges@[k as int]@);
            }
            let m = self.edges[k].len();
            for j in 0..m
                invariant
                    k < self.edges@.len(),
                    self.edges.deep_view() == ne,
                    self.recent_nodes@ == s0.recent,
                    m == ne[k as int].len(),
                    self.degrees@.len() == new_id,
                    forall|t: int, u: int|
                        0 <= t < ne.len() && 0 <= u < ne[t].len() ==> #[trigger] ne[t][u] < new_id,
                    total_slots(ne) <= usize::MAX,
                    forall|d: int|
                        0 <= d < new_id ==> #[trigger] self.degrees@[d] == occ(ne.take(k as int), d as usize)
                            + cnt(ne[k as int].take(j as int), d as usize),
            {
                let node = self.edges[k][j];
                proof {
                    assert(ne[k as int][j as int] == node);
                    lemma_occ_take_succ(ne, k as int, node);
                    lemma_occ_le_total(ne.take(k as int + 1), node);
                    assert(total_slots(ne.take(k as int + 1)) <= total_slots(ne)) by {
                        lemma_total_take_le(ne, k as int + 1);
                    }
                    lemma_cnt_take_le(ne[k as int], j as int + 1, node);
                    lemma_cnt_take_succ(ne[k as int], j as int, node);
                    assert(self.degrees@[node as int] + 1 <= usize::MAX);
                }
                let d = self.degrees[node];
                self.degrees[node] = d + 1;
                proof {
                    assert forall|t: int| 0 <= t < new_id implies #[trigger] self.degrees@[t]
                        == occ(ne.take(k as int), t as usize) + cnt(
                        ne[k as int].take(j as int + 1),
                        t as usize,
                    ) by {
                        lemma_cnt_take_succ(ne[k as int], j as int, t as usize);
                    }
                }
            }
            proof {
                assert(ne[k as int].take(m as int) =~= ne[k as int]);
                assert forall|d: int| 0 <= d < new_id implies #[trigger] self.degrees@[d] == occ(
                    ne.take(k as int + 1),
                    d as usize,
                ) by {
                    lemma_occ_take_succ(ne, k as int, d as usize);
                }
            }
        }
        self.max_node_id = new_id.saturating_sub(1);
        let mut kept_recent: Vec<(usize, usize)> = Vec::new();
        let rn = self.recent_nodes.len();
        for j in 0..rn
            invariant
                rn == s0.recent.len(),
                self.recent_nodes@ == s0.recent,
                kept_recent@ == recent_within(s0.recent.take(j as int), cs),
        {
            let p = self.recent_nodes[j];
            proof {
                assert(s0.recent.take(j as int + 1).drop_last() =~= s0.recent.take(j as int));
                assert(s0.recent.take(j as int + 1).last() == p);
            }
            if p.1 <= cs && cs - p.1 <= 10 {
                kept_recent.push(p);
            }
        }
        self.recent_nodes = kept_recent;
        proof {
            assert(s0.recent.take(rn as int) =~= s0.recent);
            assert(ne.take(en2 as int) =~= ne);
            let target = cleaned(s0, cs);
            assert(self.abs().degrees =~= target.degrees);
            assert(self.abs() =~~= target);
            assert forall|n: int| 0 <= n < self.degrees@.len() implies #[trigger] self.degrees@[n]
                == occ(self.edges.deep_view(), n as usize) by {}
            lemma_rank_mono(s0, 0, s0.degrees.len() as int, cs);
        }
    }

    /// The hyperedge at `index`, if any.
    pub fn get_edge(&self, index: usize) -> (r: Option<&Vec<usize>>)
        ensures
            r is Some <==> index < self.abs().edges.len(),
            r matches Some(e) ==> e@ == self.abs().edges[index as int],
    {
        if index < self.edges.len() {
            Some(&self.edges[index])
        } else {
            None
        }
    }

    /// All stored hyperedges.
    pub fn edges_slice(&self) -> (r: &[Vec<usize>])
        ensures
            r.deep_view() == self.abs().edges,
    {
        self.edges.as_slice()
    }

    /// The maximum degree over the table, 0 when the table is empty.
    pub fn max_degree(&self) -> (r: usize)
        ensures
            forall|n: int|
                0 <= n < self.abs().degrees.len() ==> #[trigger] self.abs().degrees[n] <= r,
            self.abs().degrees.len() == 0 ==> r == 0,
            self.abs().degrees.len() > 0 ==> exists|n: int|
                0 <= n < self.abs().degrees.len() && self.abs().degrees[n] == r,
    {
        let mut r: usize = 0;
        let n = self.degrees.len();
        for i in 0..n
            invariant
                n == self.degrees@.len(),
                forall|m: int| 0 <= m < i ==> #[trigger] self.degrees@[m] <= r,
                i == 0 ==> r == 0,
                i > 0 ==> exists|m: int| 0 <= m < i && self.degrees@[m] == r,
        {
            if self.degrees[i] > r {
                r = self.degrees[i];
            }
            proof {
                if self.degrees@[i as int] == r {
                    assert(exists|m: int| 0 <= m < i + 1 && self.degrees@[m] == r);
                }
            }
        }
        r
    }

    /// The lowest node id whose degree attains the maximum, 0 when the table
    /// is empty.
    pub fn max_degree_node(&self) -> (r: usize)
        ensures
            self.abs().degrees.len() == 0 ==> r == 0,
            self.abs().degrees.len() > 0 ==> {
                &&& r < self.abs().degrees.len()
                &&& forall|n: int|
                    0 <= n < self.abs().degrees.len() ==> #[trigger] self.abs().degrees[n]
                        <= self.abs().degrees[r as int]
                &&& forall|n: int|
                    0 <= n < r ==> #[trigger] self.abs().degrees[n] < self.abs().degrees[r as int]
            },
    {
        let mut r: usize = 0;
        let n = self.degrees.len();
        if n == 0 {
            return 0;
        }
        for i in 1..n
            invariant
                n == self.degrees@.len(),
                n > 0,
                r < i <= n,
                forall|m: int| 0 <= m < i ==> #[trigger] self.degrees@[m] <= self.degrees@[r as int],
                forall|m: int| 0 <= m < r ==> #[trigger] self.degrees@[m] < self.degrees@[r as int],
        {
            if self.degrees[i] > self.degrees[r] {
                r = i;
            }
        }
        r
    }

    /// Ascending list of the node ids with positive degree.
    pub fn active_nodes(&self) -> (r: Vec<usize>)
        ensures
            forall|a: int, b: int| 0 <= a < b < r@.len() ==> r@[a] < r@[b],
            forall|a: int|
                0 <= a < r@.len() ==> #[trigger] r@[a] < self.abs().degrees.len()
                    && self.abs().degrees[r@[a] as int] > 0,
            forall|n: int|
                0 <= n < self.abs().degrees.len() && self.abs().degrees[n] > 0 ==> r@.contains(
                    n as usize,
                ),
            r@.len() == count_active(self.abs().degrees, self.abs().degrees.len() as int),
    {
        let mut r: Vec<usize> = Vec::new();
        let n = self.degrees.len();
        for i in 0..n
            invariant
                n == self.degrees@.len(),
                forall|a: int, b: int| 0 <= a < b < r@.len() ==> r@[a] < r@[b],
                forall|a: int|
                    0 <= a < r@.len() ==> #[trigger] r@[a] < i && self.degrees@[r@[a] as int] > 0,
                forall|m: int|
                    0 <= m < i && self.degrees@[m] > 0 ==> r@.contains(m as usize),
                r@.len() == count_active(self.degrees@, i as int),
        {
            if self.degrees[i] > 0 {
                let ghost prev = r@;
                r.push(i);
                proof {
                    assert(r@.last() == i);
                    assert forall|m: int|
                        0 <= m < i + 1 && self.degrees@[m] > 0 implies r@.contains(m as usize) by {
                        if m < i {
                            assert(prev.contains(m as usize));
                            let w = choose|w: int| 0 <= w < prev.len() && prev[w] == m as usize;
                            assert(r@[w] == m as usize);
                        } else {
                            assert(r@[r@.len() - 1] == i as usize);
                        }
                    }
                }
            }
        }
        r
    }

    /// The high-water node id.
    pub fn get_max_node_id(&self) -> (r: usize)
        ensures
            r == self.abs().max_node_id,
    {
        self.max_node_id
    }

    /// The full degree table.
    pub fn degrees(&self) -> (r: &Vec<usize>)
        ensures
            r@ == self.abs().degrees,
    {
        &self.degrees
    }
}

} // verus!

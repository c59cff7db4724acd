//! Closeness vitality of every node in an undirected, unweighted graph.
//!
//! The closeness vitality of a node `v` is `Wiener(G) - Wiener(G - v)`, where
//! the Wiener index is the sum of the shortest-path distances over all unordered
//! pairs of nodes. Wiener indices are exact integers here; an infinite index
//! (that of a disconnected graph) is `None`, and a vitality is a [`Vitality`].
use std::collections::VecDeque;
pub use vstd::hash_map::StringHashMap;
use vstd::prelude::*;

pub mod bfs;
pub mod io;
pub mod laws;
pub mod lines;
pub mod numbering;
pub mod paths;
pub mod report;

use crate::bfs::{
    bfs_distances, excluded, lemma_distinct_nodes_bounded, lemma_distinct_nodes_cover,
    lemma_seen_closed,
};
use crate::io::Graph;
use crate::paths::{
    adj_ok, connected, edge, is_dist, lemma_hub_connected, lemma_is_dist_distance,
    lemma_ordered_twice_unordered, lemma_within_step, node_in, pair_dist, pairs_sum, reachable,
    row_sum, rows_sum, wiener, within, lemma_row_excluded,
};

verus! {

/// The closeness vitality of a node: the difference of two Wiener indices,
/// either of which may be infinite.
#[derive(Debug, Clone, Copy, PartialEq, Eq)]
pub enum Vitality {
    /// Both indices are finite; this is their exact difference.
    Finite(i64),
    /// The graph is connected but loses its connectivity with the node
    /// (finite minus infinite).
    NegInfinity,
    /// The graph is disconnected but the graph without the node is not
    /// (infinite minus finite).
    PosInfinity,
    /// Both indices are infinite (infinite minus infinite).
    Undefined,
}

/// The difference `before - after` of two Wiener indices, `None` standing for
/// an infinite one.
pub open spec fn vitality_of(before: Option<nat>, after: Option<nat>) -> Vitality {
    match (before, after) {
        (Some(b), Some(a)) => Vitality::Finite((b - a) as i64),
        (Some(_), None) => Vitality::NegInfinity,
        (None, Some(_)) => Vitality::PosInfinity,
        (None, None) => Vitality::Undefined,
    }
}

/// The closeness vitality of node `v`: `Wiener(G) - Wiener(G - v)`.
pub open spec fn closeness(adj: Seq<Seq<u32>>, v: int) -> Vitality {
    vitality_of(wiener(adj, -1), wiener(adj, v))
}

/// `m` maps the label of each node of `g` to the node's closeness vitality,
/// and holds no other key.
pub open spec fn is_vitality_map(g: Graph, m: Map<Seq<char>, Vitality>) -> bool {
    &&& forall|i: int|
        0 <= i < g.labels@.len() ==> m.contains_key(#[trigger] g.label(i)) && m[g.label(i)]
            == closeness(g.adj_view(), i)
    &&& forall|k: Seq<char>| #[trigger] m.contains_key(k) ==> g.has_label(k)
}

/// `r` is the closeness vitality of the node of `g` labelled `label`, and
/// `None` when no node has that label.
pub open spec fn is_label_vitality(g: Graph, label: Seq<char>, r: Option<Vitality>) -> bool {
    &&& (r is None <==> !g.has_label(label))
    &&& forall|i: int|
        0 <= i < g.labels@.len() && #[trigger] g.label(i) == label ==> r == Some(
            closeness(g.adj_view(), i),
        )
}

/// The sums of distances over ordered pairs of nodes fit in a `u64`: at most
/// `n * n` pairs, each at a distance below `n`.
pub open spec fn sums_fit(n: int) -> bool {
    n * n * n <= u64::MAX
}

/// `w` is the Wiener index of the graph with `x` removed (`None`: infinite),
/// and a finite one is at most half of `u64::MAX`.
pub open spec fn is_wiener(adj: Seq<Seq<u32>>, x: int, w: Option<u64>) -> bool {
    match w {
        Some(v) => wiener(adj, x) == Some(v as nat) && v <= u64::MAX / 2,
        None => wiener(adj, x) is None,
    }
}

proof fn lemma_sum_step(src: int, t: int, n: int)
    requires
        0 <= src < n,
        0 <= t < n,
    ensures
        (src * n + t) * n + n == (src * n + t + 1) * n,
        (src * n + t + 1) * n <= n * n * n,
        (src * n + n) * n == (src + 1) * n * n,
        src * n * n <= (src + 1) * n * n,
{
    assert(src * n * n <= (src + 1) * n * n) by (nonlinear_arith)
        requires
            0 <= src,
            0 <= n,
    ;
    assert((src * n + t) * n + n == (src * n + t + 1) * n) by (nonlinear_arith);
    assert(src * n + t + 1 <= n * n) by (nonlinear_arith)
        requires
            src < n,
            t < n,
            0 <= src,
            0 <= t,
    ;
    assert((src * n + t + 1) * n <= n * n * n) by (nonlinear_arith)
        requires
            src * n + t + 1 <= n * n,
            0 <= n,
    ;
    assert((src * n + n) * n == (src + 1) * n * n) by (nonlinear_arith);
}

/// A graph with at most one node is connected and has Wiener index 0.
proof fn lemma_single_node(adj: Seq<Seq<u32>>, x: int)
    requires
        adj.len() <= 1 || (adj.len() == 2 && 0 <= x < 2),
    ensures
        wiener(adj, x) == Some(0nat),
{
    assert forall|s: int, t: int| node_in(adj, x, s) && node_in(adj, x, t) implies #[trigger] reachable(
        adj,
        x,
        s,
        t,
    ) by {
        assert(within(adj, x, s, 0, t));
    }
    assert(pairs_sum(adj, x, 0) == 0);
    assert(pairs_sum(adj, x, 1) == 0);
    if adj.len() == 2 {
        assert(pair_dist(adj, x, 0, 1) == 0);
        assert(pairs_sum(adj, x, 2) == pairs_sum(adj, x, 1) + pair_dist(adj, x, 0, 1)) by {
            reveal_with_fuel(crate::paths::col_sum, 3);
        }
    }
}

/// Wiener index of `g`: sum of shortest-path distances over all UNORDERED pairs
/// (u, v) with u < v, i.e. each pair counted once.
///
/// Computed as the sum over all ordered pairs, halved; `None` if the graph is
/// disconnected (some pair unreachable).
fn wiener_index(g: &Graph) -> (w: Option<u64>)
    requires
        g.wf(),
        sums_fit(g.labels@.len() as int),
    ensures
        is_wiener(g.adj_view(), -1, w),
{
    let ghost a = g.adj_view();
    let n = g.n();
    if n <= 1 {
        proof {
            lemma_single_node(a, -1);
        }
        return Some(0);
    }
    let mut total: u64 = 0;
    let mut dist: Vec<u32> = vec![u32::MAX; n];
    let mut queue: VecDeque<u32> = VecDeque::with_capacity(n);
    let mut src: usize = 0;
    while src < n
        invariant
            g.wf(),
            a == g.adj_view(),
            n == g.labels@.len(),
            n == g.adj@.len(),
            sums_fit(n as int),
            src <= n,
            dist@.len() == n,
            total == rows_sum(a, -1, src as nat, n as nat),
            total <= src * n * n,
            forall|s: int, t: int| 0 <= s < src && node_in(a, -1, t) ==> #[trigger] reachable(a, -1, s, t),
        decreases n - src,
    {
        bfs_distances(&g.adj, src, None, &mut dist, &mut queue);
        assert(excluded(None) == -1);
        let mut t: usize = 0;
        while t < n
            invariant
                g.wf(),
                a == g.adj_view(),
                n == g.labels@.len(),
                n == g.adj@.len(),
                sums_fit(n as int),
                src < n,
                t <= n,
                dist@.len() == n,
                total == rows_sum(a, -1, src as nat, n as nat) + row_sum(a, -1, src as int, t as nat),
                total <= (src * n + t) * n,
                forall|s: int, u: int| 0 <= s < src && node_in(a, -1, u) ==> #[trigger] reachable(a, -1, s, u),
                forall|u: int| 0 <= u < t ==> #[trigger] reachable(a, -1, src as int, u),
                forall|u: int| node_in(a, -1, u) ==> (dist@[u] != u32::MAX <==> reachable(a, -1, src as int, u)),
                forall|u: int|
                    node_in(a, -1, u) && dist@[u] != u32::MAX ==> is_dist(a, -1, src as int, u, dist@[u] as nat)
                        && (dist@[u] as int) < n,
            decreases n - t,
        {
            let d = dist[t];
            if d == u32::MAX {
                proof {
                    assert(node_in(a, -1, src as int));
                    assert(!reachable(a, -1, src as int, t as int));
                }
                return None;
            }
            proof {
                lemma_is_dist_distance(a, -1, src as int, t as int, d as nat);
                assert(pair_dist(a, -1, src as int, t as int) == d);
                lemma_sum_step(src as int, t as int, n as int);
            }
            total = total + d as u64;
            t += 1;
        }
        proof {
            lemma_sum_step(src as int, 0, n as int);
        }
        src += 1;
    }
    proof {
        lemma_ordered_twice_unordered(a, -1, n as nat);
        assert(connected(a, -1));
    }
    Some(total / 2)
}

/// Wiener index of G − v (the subgraph induced by all nodes except `v`).
///
/// BFS skips node `v` entirely. `None` (an infinite index) if the subgraph is
/// disconnected.
fn wiener_subgraph_minus(g: &Graph, v: usize, dist: &mut Vec<u32>, queue: &mut VecDeque<u32>) -> (w:
    Option<u64>)
    requires
        g.wf(),
        v < g.labels@.len(),
        sums_fit(g.labels@.len() as int),
        old(dist)@.len() == g.labels@.len(),
    ensures
        is_wiener(g.adj_view(), v as int, w),
        final(dist)@.len() == g.labels@.len(),
{
    let ghost a = g.adj_view();
    let ghost x = v as int;
    let n = g.n();
    if n - 1 <= 1 {
        proof {
            lemma_single_node(a, x);
        }
        return Some(0);
    }
    let mut total: u64 = 0;
    let mut src: usize = 0;
    while src < n
        invariant
            g.wf(),
            a == g.adj_view(),
            x == v as int,
            v < n,
            n == g.labels@.len(),
            n == g.adj@.len(),
            sums_fit(n as int),
            src <= n,
            dist@.len() == n,
            total == rows_sum(a, x, src as nat, n as nat),
            total <= src * n * n,
            forall|s: int, t: int|
                0 <= s < src && node_in(a, x, s) && node_in(a, x, t) ==> #[trigger] reachable(a, x, s, t),
        decreases n - src,
    {
        if src == v {
            proof {
                lemma_row_excluded(a, x, n as nat);
                lemma_sum_step(src as int, 0, n as int);
            }
            src += 1;
            continue;
        }
        bfs_distances(&g.adj, src, Some(v), dist, queue);
        assert(excluded(Some(v)) == x);
        let mut u: usize = 0;
        while u < n
            invariant
                g.wf(),
                a == g.adj_view(),
                x == v as int,
                v < n,
                n == g.labels@.len(),
                n == g.adj@.len(),
                sums_fit(n as int),
                src < n,
                src != v,
                u <= n,
                dist@.len() == n,
                total == rows_sum(a, x, src as nat, n as nat) + row_sum(a, x, src as int, u as nat),
                total <= (src * n + u) * n,
                forall|s: int, t: int|
                    0 <= s < src && node_in(a, x, s) && node_in(a, x, t) ==> #[trigger] reachable(a, x, s, t),
                forall|t: int| 0 <= t < u && node_in(a, x, t) ==> #[trigger] reachable(a, x, src as int, t),
                forall|t: int| node_in(a, x, t) ==> (dist@[t] != u32::MAX <==> reachable(a, x, src as int, t)),
                forall|t: int|
                    node_in(a, x, t) && dist@[t] != u32::MAX ==> is_dist(a, x, src as int, t, dist@[t] as nat)
                        && (dist@[t] as int) < n,
            decreases n - u,
        {
            if u == v {
                proof {
                    lemma_sum_step(src as int, u as int, n as int);
                }
                u += 1;
                continue;
            }
            let d = dist[u];
            assert(node_in(a, x, u as int));
            if d == u32::MAX {
                proof {
                    assert(node_in(a, x, src as int));
                    assert(!reachable(a, x, src as int, u as int));
                }
                return None;
            }
            proof {
                lemma_is_dist_distance(a, x, src as int, u as int, d as nat);
                assert(pair_dist(a, x, src as int, u as int) == d);
                lemma_sum_step(src as int, u as int, n as int);
            }
            total = total + d as u64;
            u += 1;
        }
        proof {
            lemma_sum_step(src as int, 0, n as int);
        }
        src += 1;
    }
    proof {
        lemma_ordered_twice_unordered(a, x, n as nat);
        assert(connected(a, x));
    }
    Some(total / 2)
}

/// Whether every node of `g` is reachable from node 0 (a single connected
/// component). An empty graph is trivially connected.
///
/// Closeness vitality is only well defined on a connected graph: on a
/// disconnected graph the Wiener index is infinite, so every vitality is
/// `Undefined` or infinite. An edge list also cannot carry isolated nodes, so a
/// disconnected input can never be reconstructed faithfully — the caller bails
/// rather than emit a plausible wrong value.
pub fn is_connected(g: &Graph) -> (c: bool)
    requires
        g.wf(),
    ensures
        c == connected(g.adj_view(), -1),
{
    let ghost a = g.adj_view();
    let n = g.n();
    if n <= 1 {
        proof {
            lemma_single_node(a, -1);
        }
        return true;
    }
    let mut seen: Vec<bool> = Vec::with_capacity(n);
    let mut i: usize = 0;
    while i < n
        invariant
            i <= n,
            seen@.len() == i,
            forall|j: int| 0 <= j < i ==> !seen@[j],
        decreases n - i,
    {
        seen.push(false);
        i += 1;
    }
    let mut queue: VecDeque<u32> = VecDeque::with_capacity(n);
    seen.set(0, true);
    queue.push_back(0u32);
    let mut count: usize = 1;
    let ghost mut order: Seq<u32> = seq![0u32];
    let ghost mut head: int = 0;
    assert(within(a, -1, 0, 0, 0));
    assert(order.contains(0u32)) by {
        assert(order[0] == 0u32);
    }
    while queue.len() > 0
        invariant
            g.wf(),
            a == g.adj_view(),
            n == g.labels@.len(),
            n == a.len(),
            adj_ok(a),
            seen@.len() == n,
            seen@[0],
            0 <= head <= order.len(),
            order.len() <= n,
            count == order.len(),
            queue@ == order.subrange(head, order.len() as int),
            order.no_duplicates(),
            forall|i: int| 0 <= i < order.len() ==> (#[trigger] order[i] as int) < n,
            forall|v: int| 0 <= v < n ==> (seen@[v] <==> order.contains(v as u32)),
            forall|i: int| 0 <= i < order.len() ==> reachable(a, -1, 0, #[trigger] order[i] as int),
            forall|i: int, w: int| 0 <= i < head && #[trigger] edge(a, order[i] as int, w) ==> seen@[w],
        decreases 2 * n - order.len() - head,
    {
        let u = queue.pop_front().unwrap();
        let ghost head0 = head;
        proof {
            assert(u == order[head0]);
            head = head + 1;
            assert(queue@ =~= order.subrange(head, order.len() as int));
        }
        let nbrs = &g.adj[u as usize];
        let ghost old_len = order.len();
        let mut k: usize = 0;
        while k < nbrs.len()
            invariant
                old_len <= order.len(),
                g.wf(),
                a == g.adj_view(),
                n == g.labels@.len(),
                n == a.len(),
                adj_ok(a),
                seen@.len() == n,
                seen@[0],
                head == head0 + 1,
                0 <= head0 < order.len(),
                order.len() <= n,
                count == order.len(),
                u == order[head0],
                nbrs@ == a[u as int],
                queue@ == order.subrange(head, order.len() as int),
                order.no_duplicates(),
                forall|i: int| 0 <= i < order.len() ==> (#[trigger] order[i] as int) < n,
                forall|v: int| 0 <= v < n ==> (seen@[v] <==> order.contains(v as u32)),
                forall|i: int| 0 <= i < order.len() ==> reachable(a, -1, 0, #[trigger] order[i] as int),
                forall|i: int, w: int| 0 <= i < head0 && #[trigger] edge(a, order[i] as int, w) ==> seen@[w],
                forall|j: int| 0 <= j < k ==> seen@[#[trigger] nbrs@[j] as int],
            decreases nbrs.len() - k,
        {
            let v = nbrs[k];
            proof {
                assert(a[u as int][k as int] == v);
            }
            if !seen[v as usize] {
                proof {
                    assert(a[u as int].contains(v));
                    assert(edge(a, u as int, v as int));
                    let j = choose|j: nat| #[trigger] within(a, -1, 0, j, u as int);
                    lemma_within_step(a, -1, 0, j, u as int, v as int);
                    assert(!order.contains(v));
                }
                seen.set(v as usize, true);
                proof {
                    let prev = order;
                    order = order.push(v);
                    assert(order[order.len() - 1] == v);
                    lemma_distinct_nodes_bounded(order, n as int);
                    assert forall|w: int| 0 <= w < n implies (seen@[w] <==> order.contains(w as u32)) by {
                        if w == v as int {
                            assert(order[order.len() - 1] == v);
                        } else if prev.contains(w as u32) {
                            let i = choose|i: int| 0 <= i < prev.len() && prev[i] == w as u32;
                            assert(order[i] == w as u32);
                        } else if order.contains(w as u32) {
                            let i = choose|i: int| 0 <= i < order.len() && order[i] == w as u32;
                            if i < prev.len() {
                                assert(prev[i] == w as u32);
                            }
                        }
                    }
                }
                count += 1;
                queue.push_back(v);
                proof {
                    assert(queue@ =~= order.subrange(head, order.len() as int));
                }
            }
            k += 1;
        }
        proof {
            assert forall|i: int, w: int| 0 <= i < head && #[trigger] edge(a, order[i] as int, w) implies seen@[w] by {
                if i == head0 {
                    let j = choose|j: int| 0 <= j < a[u as int].len() && a[u as int][j] == w as u32;
                    assert(nbrs@[j] as int == w);
                }
            }
        }
    }
    proof {
        lemma_distinct_nodes_cover(order, n as int);
        assert forall|t: int| node_in(a, -1, t) implies (seen@[t] <==> #[trigger] reachable(a, -1, 0, t)) by {
            if seen@[t] {
                let i = choose|i: int| 0 <= i < order.len() && order[i] == t as u32;
                assert(reachable(a, -1, 0, order[i] as int));
            } else if reachable(a, -1, 0, t) {
                let j = choose|j: nat| #[trigger] within(a, -1, 0, j, t);
                lemma_seen_closed(a, 0, seen@, order, j, t);
            }
        }
        if count == n {
            assert forall|t: int| node_in(a, -1, t) implies #[trigger] reachable(a, -1, 0, t) by {
                assert(order.contains(t as u32));
            }
            lemma_hub_connected(a, -1, 0);
        } else {
            let t = choose|t: int| 0 <= t < n && !order.contains(#[trigger] (t as u32));
            assert(node_in(a, -1, 0));
            assert(!reachable(a, -1, 0, t));
        }
    }
    count == n
}

/// The index that a computed Wiener index stands for (`None`: infinite).
pub open spec fn index_value(w: Option<u64>) -> Option<nat> {
    match w {
        Some(v) => Some(v as nat),
        None => None,
    }
}

/// `before - after` for two Wiener indices, `None` standing for an infinite one.
fn vitality_diff(before: Option<u64>, after: Option<u64>) -> (d: Vitality)
    requires
        before matches Some(b) ==> b <= u64::MAX / 2,
        after matches Some(a) ==> a <= u64::MAX / 2,
    ensures
        d == vitality_of(index_value(before), index_value(after)),
{
    match (before, after) {
        (Some(b), Some(a)) => Vitality::Finite(b as i64 - a as i64),
        (Some(_), None) => Vitality::NegInfinity,
        (None, Some(_)) => Vitality::PosInfinity,
        (None, None) => Vitality::Undefined,
    }
}

/// Closeness vitality of every node in `g`.
///
/// vitality(v) = wiener_index(G) − wiener_index(G − v)
///
/// For connected unweighted graphs the values are exact integers; if removing
/// `v` disconnects G, wiener(G − v) is infinite, so vitality(v) = −inf.
///
/// The caller is expected to reject a disconnected `g` (see [`is_connected`])
/// before calling this; on a disconnected graph the results are not
/// reconstructible from an edge list.
///
/// Returns a map keyed by node label.
pub fn closeness_vitality(g: &Graph) -> (res: StringHashMap<Vitality>)
    requires
        g.wf(),
        sums_fit(g.labels@.len() as int),
    ensures
        is_vitality_map(*g, res@),
{
    let w_g = wiener_index(g);
    let n = g.n();
    let mut result: StringHashMap<Vitality> = StringHashMap::with_capacity(n);
    // Reuse buffers across nodes for BFS on the subgraph G − v.
    let mut dist: Vec<u32> = vec![u32::MAX; n];
    let mut queue: VecDeque<u32> = VecDeque::with_capacity(n);
    let mut v: usize = 0;
    while v < n
        invariant
            g.wf(),
            n == g.labels@.len(),
            sums_fit(n as int),
            is_wiener(g.adj_view(), -1, w_g),
            v <= n,
            dist@.len() == n,
            forall|i: int|
                0 <= i < v ==> result@.contains_key(#[trigger] g.label(i)) && result@[g.label(i)]
                    == closeness(g.adj_view(), i),
            forall|k: Seq<char>|
                #[trigger] result@.contains_key(k) ==> exists|i: int| 0 <= i < v && #[trigger] g.label(i) == k,
        decreases n - v,
    {
        let w_after = wiener_subgraph_minus(g, v, &mut dist, &mut queue);
        let vitality = vitality_diff(w_g, w_after);
        let label = g.labels[v].clone();
        result.insert(label, vitality);
        proof {
            assert(label@ == g.label(v as int));
            assert forall|k: Seq<char>| #[trigger] result@.contains_key(k) implies exists|i: int|
                0 <= i < v + 1 && #[trigger] g.label(i) == k by {
                if k == g.label(v as int) {
                    assert(g.label(v as int) == k);
                }
            }
        }
        v += 1;
    }
    proof {
        assert forall|k: Seq<char>| #[trigger] result@.contains_key(k) implies g.has_label(k) by {
            let i = choose|i: int| 0 <= i < n && #[trigger] g.label(i) == k;
            assert(g.label(i) == k);
        }
    }
    result
}

/// Closeness vitality for a single node `v` (by label).
///
/// Returns `None` if the label is not in the graph.
pub fn closeness_vitality_node(g: &Graph, label: &str) -> (res: Option<Vitality>)
    requires
        g.wf(),
        sums_fit(g.labels@.len() as int),
    ensures
        is_label_vitality(*g, label@, res),
{
    let v = match g.index.get(label) {
        Some(v) => *v,
        None => {
            proof {
                if g.has_label(label@) {
                    let i = choose|i: int| 0 <= i < g.labels@.len() && #[trigger] g.label(i) == label@;
                    assert(g.index@.contains_key(g.label(i)));
                }
            }
            return None;
        },
    };
    let ghost vi = v as int;
    assert(g.label(vi) == label@);
    let w_g = wiener_index(g);
    let n = g.n();
    let mut dist: Vec<u32> = vec![u32::MAX; n];
    let mut queue: VecDeque<u32> = VecDeque::with_capacity(n);
    let w_after = wiener_subgraph_minus(g, v as usize, &mut dist, &mut queue);
    let res = Some(vitality_diff(w_g, w_after));
    proof {
        assert forall|i: int|
            0 <= i < g.labels@.len() && #[trigger] g.label(i) == label@ implies res == Some(
                closeness(g.adj_view(), i),
            ) by {
            if i != vi {
                if i < vi {
                    assert(g.label(i) != g.label(vi));
                } else {
                    assert(g.label(vi) != g.label(i));
                }
            }
        }
        assert(g.has_label(label@));
    }
    res
}

} // verus!

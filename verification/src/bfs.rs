//! Breadth-first search that labels every node with its distance from a source.
use std::collections::VecDeque;
use vstd::prelude::*;
use vstd::set_lib::*;

use crate::paths::{
    adj_ok, edge, is_dist, lemma_within_nodes, lemma_within_step, node_in, reachable, within,
};

verus! {

/// The adjacency lists of a graph as sequences.
pub open spec fn adj_seq(adj: Seq<Vec<u32>>) -> Seq<Seq<u32>> {
    adj.map_values(|a: Vec<u32>| a@)
}

/// The node that an optional removal names, `-1` when there is none.
pub open spec fn excluded(skip: Option<usize>) -> int {
    match skip {
        Some(v) => v as int,
        None => -1,
    }
}

/// A sequence of distinct nodes below `n` has at most `n` entries.
pub proof fn lemma_distinct_nodes_bounded(order: Seq<u32>, n: int)
    requires
        0 <= n,
        order.no_duplicates(),
        forall|i: int| 0 <= i < order.len() ==> (#[trigger] order[i] as int) < n,
    ensures
        order.len() <= n,
{
    let f = |v: u32| v as int;
    let ints = order.map_values(f);
    order.lemma_no_duplicates_injective(f);
    ints.unique_seq_to_set();
    lemma_int_range(0, n);
    assert forall|v: int| ints.to_set().contains(v) implies set_int_range(0, n).contains(v) by {
        let i = choose|i: int| 0 <= i < ints.len() && ints[i] == v;
        assert(order[i] as int == v);
    }
    lemma_len_subset(ints.to_set(), set_int_range(0, n));
}

/// A sequence of distinct nodes below `n` lists all `n` nodes exactly when it
/// has `n` entries.
pub proof fn lemma_distinct_nodes_cover(order: Seq<u32>, n: int)
    requires
        0 <= n <= u32::MAX,
        order.no_duplicates(),
        forall|i: int| 0 <= i < order.len() ==> (#[trigger] order[i] as int) < n,
    ensures
        order.len() == n <==> forall|v: int| 0 <= v < n ==> order.contains(#[trigger] (v as u32)),
{
    let f = |v: u32| v as int;
    let ints = order.map_values(f);
    order.lemma_no_duplicates_injective(f);
    ints.unique_seq_to_set();
    lemma_int_range(0, n);
    assert forall|v: int| ints.to_set().contains(v) implies set_int_range(0, n).contains(v) by {
        let i = choose|i: int| 0 <= i < ints.len() && ints[i] == v;
        assert(order[i] as int == v);
    }
    lemma_len_subset(ints.to_set(), set_int_range(0, n));
    if order.len() == n {
        lemma_subset_equality(ints.to_set(), set_int_range(0, n));
        assert forall|v: int| 0 <= v < n implies order.contains(#[trigger] (v as u32)) by {
            assert(ints.to_set().contains(v));
            let i = choose|i: int| 0 <= i < ints.len() && ints[i] == v;
            assert(order[i] == v as u32);
        }
    }
    if forall|v: int| 0 <= v < n ==> order.contains(#[trigger] (v as u32)) {
        assert forall|v: int| set_int_range(0, n).contains(v) implies ints.to_set().contains(v) by {
            assert(order.contains(v as u32));
            let i = choose|i: int| 0 <= i < order.len() && order[i] == v as u32;
            assert(ints[i] == v);
        }
        assert(ints.to_set() =~= set_int_range(0, n));
    }
}

/// Once every visited node has been expanded, every node reachable from the
/// start has been visited.
pub proof fn lemma_seen_closed(
    a: Seq<Seq<u32>>,
    r: int,
    seen: Seq<bool>,
    order: Seq<u32>,
    j: nat,
    t: int,
)
    requires
        adj_ok(a),
        seen.len() == a.len(),
        0 <= r < a.len(),
        seen[r],
        forall|v: int| 0 <= v < a.len() ==> (seen[v] <==> order.contains(v as u32)),
        forall|i: int, w: int|
            0 <= i < order.len() && #[trigger] edge(a, order[i] as int, w) ==> seen[w],
        within(a, -1, r, j, t),
    ensures
        seen[t],
    decreases j,
{
    lemma_within_nodes(a, -1, r, j, t);
    if j > 0 {
        if within(a, -1, r, (j - 1) as nat, t) {
            lemma_seen_closed(a, r, seen, order, (j - 1) as nat, t);
        } else {
            let u = choose|u: int| within(a, -1, r, (j - 1) as nat, u) && #[trigger] edge(a, u, t);
            lemma_within_nodes(a, -1, r, (j - 1) as nat, u);
            lemma_seen_closed(a, r, seen, order, (j - 1) as nat, u);
            let i = choose|i: int| 0 <= i < order.len() && order[i] == u as u32;
            assert(edge(a, order[i] as int, t));
        }
    }
}

/// Once every visited node has been expanded, every node that a walk of at most
/// `j` edges reaches has been visited, at a distance of at most `j`.
proof fn lemma_bfs_closed(
    a: Seq<Seq<u32>>,
    x: int,
    src: int,
    d: Seq<u32>,
    order: Seq<u32>,
    j: nat,
    t: int,
)
    requires
        adj_ok(a),
        d.len() == a.len(),
        0 <= src < a.len(),
        d[src] == 0,
        forall|v: int| node_in(a, x, v) ==> (d[v] != u32::MAX <==> order.contains(v as u32)),
        forall|i: int, w: int|
            0 <= i < order.len() && #[trigger] edge(a, order[i] as int, w) && w != x ==> d[w]
                != u32::MAX && d[w] <= d[order[i] as int] + 1,
        within(a, x, src, j, t),
    ensures
        d[t] != u32::MAX,
        d[t] <= j,
    decreases j,
{
    lemma_within_nodes(a, x, src, j, t);
    if j > 0 {
        if within(a, x, src, (j - 1) as nat, t) {
            lemma_bfs_closed(a, x, src, d, order, (j - 1) as nat, t);
        } else {
            let u = choose|u: int| within(a, x, src, (j - 1) as nat, u) && #[trigger] edge(a, u, t);
            lemma_within_nodes(a, x, src, (j - 1) as nat, u);
            lemma_bfs_closed(a, x, src, d, order, (j - 1) as nat, u);
            let i = choose|i: int| 0 <= i < order.len() && order[i] == u as u32;
            assert(edge(a, order[i] as int, t));
        }
    }
}

/// Breadth-first search from `src` in the graph with the node `skip` (if any)
/// removed. Afterwards `dist[t]` is the shortest-path distance from `src` to
/// every node `t` that `src` reaches, and `u32::MAX` for every other node; the
/// removed node holds 0, which marks it as visited.
pub fn bfs_distances(
    adj: &Vec<Vec<u32>>,
    src: usize,
    skip: Option<usize>,
    dist: &mut Vec<u32>,
    queue: &mut VecDeque<u32>,
)
    requires
        adj_ok(adj_seq(adj@)),
        node_in(adj_seq(adj@), excluded(skip), src as int),
        skip matches Some(v) ==> v < adj@.len(),
        old(dist)@.len() == adj@.len(),
    ensures
        final(dist)@.len() == adj@.len(),
        final(queue)@.len() == 0,
        skip matches Some(v) ==> final(dist)@[v as int] == 0,
        forall|t: int|
            node_in(adj_seq(adj@), excluded(skip), t) ==> (final(dist)@[t] != u32::MAX
                <==> reachable(adj_seq(adj@), excluded(skip), src as int, t)),
        forall|t: int|
            node_in(adj_seq(adj@), excluded(skip), t) && final(dist)@[t] != u32::MAX ==> {
                &&& is_dist(adj_seq(adj@), excluded(skip), src as int, t, final(dist)@[t] as nat)
                &&& (final(dist)@[t] as int) < adj@.len()
            },
{
    let ghost a = adj_seq(adj@);
    let ghost x = excluded(skip);
    let n = adj.len();
    let mut i: usize = 0;
    while i < n
        invariant
            n == adj@.len(),
            dist@.len() == n,
            i <= n,
            forall|j: int| 0 <= j < i ==> dist@[j] == u32::MAX,
        decreases n - i,
    {
        dist.set(i, u32::MAX);
        i += 1;
    }
    dist.set(src, 0);
    if let Some(v) = skip {
        // The removed node counts as visited, so the search never enters it.
        dist.set(v, 0);
    }
    queue.clear();
    queue.push_back(src as u32);
    let ghost mut order: Seq<u32> = seq![src as u32];
    let ghost mut head: int = 0;
    assert(within(a, x, src as int, 0, src as int));
    assert(order.contains(src as u32)) by {
        assert(order[0] == src as u32);
    }
    while queue.len() > 0
        invariant
            n == adj@.len(),
            a == adj_seq(adj@),
            x == excluded(skip),
            adj_ok(a),
            node_in(a, x, src as int),
            skip matches Some(v) ==> v < n && dist@[v as int] == 0,
            dist@.len() == n,
            0 <= head <= order.len(),
            order.len() <= n,
            order.len() >= 1,
            order[0] == src as u32,
            queue@ == order.subrange(head, order.len() as int),
            order.no_duplicates(),
            forall|i: int| 0 <= i < order.len() ==> node_in(a, x, #[trigger] order[i] as int),
            forall|v: int| node_in(a, x, v) ==> (dist@[v] != u32::MAX <==> order.contains(v as u32)),
            forall|i: int| 0 <= i < order.len() ==> dist@[#[trigger] order[i] as int] <= i,
            forall|i: int|
                0 <= i < order.len() ==> within(
                    a,
                    x,
                    src as int,
                    dist@[#[trigger] order[i] as int] as nat,
                    order[i] as int,
                ),
            forall|i: int, j: int|
                0 <= i <= j < order.len() ==> dist@[#[trigger] order[i] as int]
                    <= dist@[#[trigger] order[j] as int],
            head < order.len() ==> dist@[order[order.len() - 1] as int] <= dist@[order[head] as int]
                + 1,
            forall|i: int, w: int|
                0 <= i < head && #[trigger] edge(a, order[i] as int, w) && w != x ==> dist@[w]
                    != u32::MAX && dist@[w] <= dist@[order[i] as int] + 1,
        decreases 2 * n - order.len() - head,
    {
        proof {
            lemma_distinct_nodes_bounded(order, n as int);
        }
        let u = queue.pop_front().unwrap();
        let ghost head0 = head;
        proof {
            assert(u == order[head0]);
            head = head + 1;
            assert(queue@ =~= order.subrange(head, order.len() as int));
        }
        let d_u = dist[u as usize];
        let nbrs = &adj[u as usize];
        let ghost old_order = order;
        let mut k: usize = 0;
        while k < nbrs.len()
            invariant
                n == adj@.len(),
                a == adj_seq(adj@),
                x == excluded(skip),
                adj_ok(a),
                node_in(a, x, src as int),
                skip matches Some(v) ==> v < n && dist@[v as int] == 0,
                dist@.len() == n,
                head == head0 + 1,
                0 <= head0 < old_order.len(),
                old_order.len() <= order.len(),
                order.len() <= n,
                old_order == order.subrange(0, old_order.len() as int),
                u == order[head0],
                nbrs@ == a[u as int],
                d_u == dist@[u as int],
                d_u <= head0,
                order.len() >= 1,
                order[0] == src as u32,
                queue@ == order.subrange(head, order.len() as int),
                order.no_duplicates(),
                forall|i: int| 0 <= i < order.len() ==> node_in(a, x, #[trigger] order[i] as int),
                forall|v: int|
                    node_in(a, x, v) ==> (dist@[v] != u32::MAX <==> order.contains(v as u32)),
                forall|i: int| 0 <= i < order.len() ==> dist@[#[trigger] order[i] as int] <= i,
                forall|i: int|
                    0 <= i < order.len() ==> within(
                        a,
                        x,
                        src as int,
                        dist@[#[trigger] order[i] as int] as nat,
                        order[i] as int,
                    ),
                forall|i: int, j: int|
                    0 <= i <= j < order.len() ==> dist@[#[trigger] order[i] as int]
                        <= dist@[#[trigger] order[j] as int],
                forall|i: int| 0 <= i < order.len() ==> dist@[#[trigger] order[i] as int] <= d_u + 1,
                forall|i: int, w: int|
                    0 <= i < head0 && #[trigger] edge(a, order[i] as int, w) && w != x ==> dist@[w]
                        != u32::MAX && dist@[w] <= dist@[order[i] as int] + 1,
                forall|j: int|
                    0 <= j < k && nbrs@[j] as int != x ==> dist@[#[trigger] nbrs@[j] as int]
                        != u32::MAX && dist@[nbrs@[j] as int] <= d_u + 1,
            decreases nbrs.len() - k,
        {
            let w = nbrs[k];
            proof {
                assert(a[u as int][k as int] == w);
                lemma_distinct_nodes_bounded(order, n as int);
            }
            if dist[w as usize] == u32::MAX {
                proof {
                    assert(w as int != x);
                    assert(a[u as int].contains(w));
                    assert(edge(a, u as int, w as int));
                    assert(within(a, x, src as int, d_u as nat, u as int));
                    lemma_within_step(a, x, src as int, d_u as nat, u as int, w as int);
                    assert(!order.contains(w));
                }
                dist.set(w as usize, d_u + 1);
                queue.push_back(w);
                proof {
                    let prev = order;
                    order = order.push(w);
                    assert(queue@ =~= order.subrange(head, order.len() as int));
                    assert(old_order =~= order.subrange(0, old_order.len() as int));
                    assert(order[order.len() - 1] == w);
                    lemma_distinct_nodes_bounded(order, n as int);
                    assert forall|v: int| node_in(a, x, v) implies (dist@[v] != u32::MAX
                        <==> order.contains(v as u32)) by {
                        if v == w as int {
                            assert(order[order.len() - 1] == w);
                        } else if prev.contains(v as u32) {
                            let i = choose|i: int| 0 <= i < prev.len() && prev[i] == v as u32;
                            assert(order[i] == v as u32);
                        } else if order.contains(v as u32) {
                            let i = choose|i: int| 0 <= i < order.len() && order[i] == v as u32;
                            if i < prev.len() {
                                assert(prev[i] == v as u32);
                            }
                        }
                    }
                }
            } else {
                proof {
                  if w as int != x {
                    assert(a[u as int].contains(w));
                    assert(edge(a, u as int, w as int));
                    assert(node_in(a, x, w as int));
                    let i = choose|i: int| 0 <= i < order.len() && order[i] == w;
                    assert(dist@[order[i] as int] <= d_u + 1);
                  }
                }
            }
            k += 1;
        }
        proof {
            assert forall|i: int, w: int|
                0 <= i < head && #[trigger] edge(a, order[i] as int, w) && w != x implies dist@[w]
                != u32::MAX && dist@[w] <= dist@[order[i] as int] + 1 by {
                if i == head0 {
                    let j = choose|j: int| 0 <= j < a[u as int].len() && a[u as int][j] == w as u32;
                    assert(nbrs@[j] as int == w);
                }
            }
            if head < order.len() {
                assert(dist@[order[head0] as int] <= dist@[order[head] as int]);
            }
        }
    }
    proof {
        assert forall|t: int| node_in(a, x, t) implies (dist@[t] != u32::MAX <==> reachable(
            a,
            x,
            src as int,
            t,
        )) && (dist@[t] != u32::MAX ==> is_dist(a, x, src as int, t, dist@[t] as nat) && (
        dist@[t] as int) < n) by {
            assert(order.contains(src as u32)) by {
                assert(order[0] == src as u32);
            }
            if dist@[t] != u32::MAX {
                let i = choose|i: int| 0 <= i < order.len() && order[i] == t as u32;
                assert(within(a, x, src as int, dist@[order[i] as int] as nat, order[i] as int));
                assert(reachable(a, x, src as int, t));
                lemma_distinct_nodes_bounded(order, n as int);
                if dist@[t] > 0 && within(a, x, src as int, (dist@[t] - 1) as nat, t) {
                    lemma_bfs_closed(a, x, src as int, dist@, order, (dist@[t] - 1) as nat, t);
                }
            } else if reachable(a, x, src as int, t) {
                let j = choose|j: nat| within(a, x, src as int, j, t);
                lemma_bfs_closed(a, x, src as int, dist@, order, j, t);
            }
        }
    }
}

} // verus!

//! Walks, shortest-path distances and distance sums in an undirected graph
//! given by adjacency lists, optionally with one node removed.
//!
//! The graph is `adj: Seq<Seq<u32>>`: node `u` is adjacent to every node listed
//! in `adj[u]`. The removed node is `x`; a value of `x` outside `0..adj.len()`
//! (such as `-1`) removes nothing.
use vstd::prelude::*;

verus! {

/// `v` is listed among the neighbours of `u`.
pub open spec fn edge(adj: Seq<Seq<u32>>, u: int, v: int) -> bool {
    &&& 0 <= u < adj.len()
    &&& 0 <= v < adj.len()
    &&& adj[u].contains(v as u32)
}

/// Adjacency lists of an undirected graph on the nodes `0..adj.len()`:
/// every listed neighbour is a node other than the list's owner, and every
/// edge is listed from both of its ends.
pub open spec fn adj_ok(adj: Seq<Seq<u32>>) -> bool {
    &&& adj.len() < u32::MAX
    &&& forall|u: int, i: int|
        0 <= u < adj.len() && 0 <= i < adj[u].len() ==> (#[trigger] adj[u][i] as int) < adj.len()
            && adj[u][i] as int != u
    &&& forall|u: int, v: int| #[trigger] edge(adj, u, v) ==> edge(adj, v, u)
}

/// `v` is a node of the graph with `x` removed.
pub open spec fn node_in(adj: Seq<Seq<u32>>, x: int, v: int) -> bool {
    0 <= v < adj.len() && v != x
}

/// In the graph with `x` removed, `t` can be reached from `s` by a walk of at
/// most `k` edges.
pub open spec fn within(adj: Seq<Seq<u32>>, x: int, s: int, k: nat, t: int) -> bool
    decreases k,
{
    if k == 0 {
        t == s && node_in(adj, x, s)
    } else {
        ||| within(adj, x, s, (k - 1) as nat, t)
        ||| (t != x && exists|u: int| within(adj, x, s, (k - 1) as nat, u) && #[trigger] edge(adj, u, t))
    }
}

/// In the graph with `x` removed, some walk leads from `s` to `t`.
pub open spec fn reachable(adj: Seq<Seq<u32>>, x: int, s: int, t: int) -> bool {
    exists|k: nat| #[trigger] within(adj, x, s, k, t)
}

/// `d` is the length of a shortest walk from `s` to `t` in the graph with `x` removed.
pub open spec fn is_dist(adj: Seq<Seq<u32>>, x: int, s: int, t: int, d: nat) -> bool {
    &&& within(adj, x, s, d, t)
    &&& (d == 0 || !within(adj, x, s, (d - 1) as nat, t))
}

/// The shortest-path distance from `s` to `t` in the graph with `x` removed
/// (0 where `t` cannot be reached).
pub open spec fn distance(adj: Seq<Seq<u32>>, x: int, s: int, t: int) -> nat {
    if reachable(adj, x, s, t) {
        choose|d: nat| is_dist(adj, x, s, t, d)
    } else {
        0
    }
}

/// Every node of the graph with `x` removed reaches every other one.
pub open spec fn connected(adj: Seq<Seq<u32>>, x: int) -> bool {
    forall|s: int, t: int|
        node_in(adj, x, s) && node_in(adj, x, t) ==> #[trigger] reachable(adj, x, s, t)
}

/// The distance between `s` and `t` when both are nodes of the graph with `x`
/// removed, and 0 otherwise.
pub open spec fn pair_dist(adj: Seq<Seq<u32>>, x: int, s: int, t: int) -> nat {
    if node_in(adj, x, s) && node_in(adj, x, t) {
        distance(adj, x, s, t)
    } else {
        0
    }
}

/// Sum of `pair_dist(s, t)` over `t < m`.
pub open spec fn row_sum(adj: Seq<Seq<u32>>, x: int, s: int, m: nat) -> nat
    decreases m,
{
    if m == 0 {
        0
    } else {
        row_sum(adj, x, s, (m - 1) as nat) + pair_dist(adj, x, s, m - 1)
    }
}

/// Sum of `pair_dist(s, t)` over `s < m`.
pub open spec fn col_sum(adj: Seq<Seq<u32>>, x: int, t: int, m: nat) -> nat
    decreases m,
{
    if m == 0 {
        0
    } else {
        col_sum(adj, x, t, (m - 1) as nat) + pair_dist(adj, x, m - 1, t)
    }
}

/// Sum of `pair_dist(s, t)` over the ordered pairs with `s < k` and `t < m`.
pub open spec fn rows_sum(adj: Seq<Seq<u32>>, x: int, k: nat, m: nat) -> nat
    decreases k,
{
    if k == 0 {
        0
    } else {
        rows_sum(adj, x, (k - 1) as nat, m) + row_sum(adj, x, k - 1, m)
    }
}

/// Sum of `pair_dist(s, t)` over the unordered pairs `s < t < m`.
pub open spec fn pairs_sum(adj: Seq<Seq<u32>>, x: int, m: nat) -> nat
    decreases m,
{
    if m == 0 {
        0
    } else {
        pairs_sum(adj, x, (m - 1) as nat) + col_sum(adj, x, m - 1, (m - 1) as nat)
    }
}

/// The Wiener index of the graph with `x` removed: the sum of the shortest-path
/// distances over all unordered pairs of its nodes, each pair counted once;
/// `None` stands for an infinite index, that of a disconnected graph.
pub open spec fn wiener(adj: Seq<Seq<u32>>, x: int) -> Option<nat> {
    if connected(adj, x) {
        Some(pairs_sum(adj, x, adj.len() as nat))
    } else {
        None
    }
}

// ---------------------------------------------------------------------------
// Walks
// ---------------------------------------------------------------------------

/// A walk bound can always be raised.
pub proof fn lemma_within_mono(adj: Seq<Seq<u32>>, x: int, s: int, j: nat, k: nat, t: int)
    requires
        j <= k,
        within(adj, x, s, j, t),
    ensures
        within(adj, x, s, k, t),
    decreases k,
{
    if j < k {
        lemma_within_mono(adj, x, s, j, (k - 1) as nat, t);
    }
}

/// One more edge extends a walk.
pub proof fn lemma_within_step(adj: Seq<Seq<u32>>, x: int, s: int, k: nat, u: int, t: int)
    requires
        within(adj, x, s, k, u),
        edge(adj, u, t),
        t != x,
    ensures
        within(adj, x, s, k + 1, t),
{
    assert(within(adj, x, s, ((k + 1) - 1) as nat, u));
}

/// Both ends of a walk are nodes of the graph with `x` removed.
pub proof fn lemma_within_nodes(adj: Seq<Seq<u32>>, x: int, s: int, k: nat, t: int)
    requires
        within(adj, x, s, k, t),
    ensures
        node_in(adj, x, s),
        node_in(adj, x, t),
    decreases k,
{
    if k > 0 {
        if within(adj, x, s, (k - 1) as nat, t) {
            lemma_within_nodes(adj, x, s, (k - 1) as nat, t);
        } else {
            let u = choose|u: int| within(adj, x, s, (k - 1) as nat, u) && #[trigger] edge(adj, u, t);
            lemma_within_nodes(adj, x, s, (k - 1) as nat, u);
        }
    }
}

/// Walks compose.
pub proof fn lemma_within_trans(
    adj: Seq<Seq<u32>>,
    x: int,
    s: int,
    a: nat,
    u: int,
    b: nat,
    t: int,
)
    requires
        within(adj, x, s, a, u),
        within(adj, x, u, b, t),
    ensures
        within(adj, x, s, a + b, t),
    decreases b,
{
    if b > 0 {
        if within(adj, x, u, (b - 1) as nat, t) {
            lemma_within_trans(adj, x, s, a, u, (b - 1) as nat, t);
            lemma_within_mono(adj, x, s, (a + b - 1) as nat, a + b, t);
        } else {
            let w = choose|w: int| within(adj, x, u, (b - 1) as nat, w) && #[trigger] edge(adj, w, t);
            lemma_within_trans(adj, x, s, a, u, (b - 1) as nat, w);
            lemma_within_step(adj, x, s, (a + b - 1) as nat, w, t);
        }
    }
}

/// In an undirected graph a walk can be followed backwards.
pub proof fn lemma_within_sym(adj: Seq<Seq<u32>>, x: int, s: int, k: nat, t: int)
    requires
        adj_ok(adj),
        within(adj, x, s, k, t),
    ensures
        within(adj, x, t, k, s),
    decreases k,
{
    lemma_within_nodes(adj, x, s, k, t);
    if k > 0 {
        if within(adj, x, s, (k - 1) as nat, t) {
            lemma_within_sym(adj, x, s, (k - 1) as nat, t);
            lemma_within_mono(adj, x, t, (k - 1) as nat, k, s);
        } else {
            let u = choose|u: int| within(adj, x, s, (k - 1) as nat, u) && #[trigger] edge(adj, u, t);
            lemma_within_nodes(adj, x, s, (k - 1) as nat, u);
            lemma_within_sym(adj, x, s, (k - 1) as nat, u);
            assert(edge(adj, t, u));
            assert(within(adj, x, t, 0, t));
            lemma_within_step(adj, x, t, 0, t, u);
            lemma_within_trans(adj, x, t, 1, u, (k - 1) as nat, s);
        }
    }
}

// ---------------------------------------------------------------------------
// Distances
// ---------------------------------------------------------------------------

/// A walk of length at most `k` gives a shortest distance of at most `k`.
proof fn lemma_shortest_exists(adj: Seq<Seq<u32>>, x: int, s: int, k: nat, t: int)
    requires
        within(adj, x, s, k, t),
    ensures
        exists|d: nat| d <= k && #[trigger] is_dist(adj, x, s, t, d),
    decreases k,
{
    if k == 0 {
        assert(is_dist(adj, x, s, t, 0));
    } else if within(adj, x, s, (k - 1) as nat, t) {
        lemma_shortest_exists(adj, x, s, (k - 1) as nat, t);
    } else {
        assert(is_dist(adj, x, s, t, k));
    }
}

/// A shortest distance is unique.
pub proof fn lemma_dist_unique(adj: Seq<Seq<u32>>, x: int, s: int, t: int, d1: nat, d2: nat)
    requires
        is_dist(adj, x, s, t, d1),
        is_dist(adj, x, s, t, d2),
    ensures
        d1 == d2,
{
    if d1 < d2 {
        lemma_within_mono(adj, x, s, d1, (d2 - 1) as nat, t);
    } else if d2 < d1 {
        lemma_within_mono(adj, x, s, d2, (d1 - 1) as nat, t);
    }
}

/// The distance of a reachable node is its shortest walk length.
pub proof fn lemma_distance(adj: Seq<Seq<u32>>, x: int, s: int, t: int)
    requires
        reachable(adj, x, s, t),
    ensures
        is_dist(adj, x, s, t, distance(adj, x, s, t)),
{
    let k = choose|k: nat| within(adj, x, s, k, t);
    lemma_shortest_exists(adj, x, s, k, t);
}

/// A node found at shortest distance `d` is at distance `d`.
pub proof fn lemma_is_dist_distance(adj: Seq<Seq<u32>>, x: int, s: int, t: int, d: nat)
    requires
        is_dist(adj, x, s, t, d),
    ensures
        reachable(adj, x, s, t),
        distance(adj, x, s, t) == d,
{
    assert(within(adj, x, s, d, t));
    lemma_distance(adj, x, s, t);
    lemma_dist_unique(adj, x, s, t, d, distance(adj, x, s, t));
}

/// Shortest walk lengths are symmetric in an undirected graph.
pub proof fn lemma_is_dist_sym(adj: Seq<Seq<u32>>, x: int, s: int, t: int, d: nat)
    requires
        adj_ok(adj),
        is_dist(adj, x, s, t, d),
    ensures
        is_dist(adj, x, t, s, d),
{
    lemma_within_sym(adj, x, s, d, t);
    if d > 0 && within(adj, x, t, (d - 1) as nat, s) {
        lemma_within_sym(adj, x, t, (d - 1) as nat, s);
    }
}

/// Reachability and distance are symmetric in an undirected graph.
pub proof fn lemma_distance_sym(adj: Seq<Seq<u32>>, x: int, s: int, t: int)
    requires
        adj_ok(adj),
    ensures
        reachable(adj, x, s, t) == reachable(adj, x, t, s),
        distance(adj, x, s, t) == distance(adj, x, t, s),
{
    if reachable(adj, x, s, t) {
        lemma_distance(adj, x, s, t);
        lemma_is_dist_sym(adj, x, s, t, distance(adj, x, s, t));
        lemma_is_dist_distance(adj, x, t, s, distance(adj, x, s, t));
    } else if reachable(adj, x, t, s) {
        lemma_distance(adj, x, t, s);
        lemma_is_dist_sym(adj, x, t, s, distance(adj, x, t, s));
        lemma_is_dist_distance(adj, x, s, t, distance(adj, x, t, s));
    }
}

/// A node that reaches every node makes the graph connected.
pub proof fn lemma_hub_connected(adj: Seq<Seq<u32>>, x: int, r: int)
    requires
        adj_ok(adj),
        forall|t: int| node_in(adj, x, t) ==> #[trigger] reachable(adj, x, r, t),
    ensures
        connected(adj, x),
{
    assert forall|s: int, t: int| node_in(adj, x, s) && node_in(adj, x, t) implies #[trigger] reachable(
        adj,
        x,
        s,
        t,
    ) by {
        assert(reachable(adj, x, r, s));
        assert(reachable(adj, x, r, t));
        let a = choose|a: nat| within(adj, x, r, a, s);
        let b = choose|b: nat| within(adj, x, r, b, t);
        lemma_within_sym(adj, x, r, a, s);
        lemma_within_trans(adj, x, s, a, r, b, t);
        assert(within(adj, x, s, a + b, t));
    }
}

// ---------------------------------------------------------------------------
// Distance sums
// ---------------------------------------------------------------------------

/// `pair_dist` is symmetric and vanishes on the diagonal.
pub proof fn lemma_pair_dist_sym(adj: Seq<Seq<u32>>, x: int, s: int, t: int)
    requires
        adj_ok(adj),
    ensures
        pair_dist(adj, x, s, t) == pair_dist(adj, x, t, s),
        pair_dist(adj, x, s, s) == 0,
{
    lemma_distance_sym(adj, x, s, t);
    if node_in(adj, x, s) {
        assert(within(adj, x, s, 0, s));
        assert(is_dist(adj, x, s, s, 0));
        lemma_is_dist_distance(adj, x, s, s, 0);
    }
}

pub proof fn lemma_row_col(adj: Seq<Seq<u32>>, x: int, s: int, m: nat)
    requires
        adj_ok(adj),
    ensures
        row_sum(adj, x, s, m) == col_sum(adj, x, s, m),
    decreases m,
{
    if m > 0 {
        lemma_row_col(adj, x, s, (m - 1) as nat);
        lemma_pair_dist_sym(adj, x, s, m - 1);
    }
}

proof fn lemma_rows_extend(adj: Seq<Seq<u32>>, x: int, k: nat, m: nat)
    ensures
        rows_sum(adj, x, k, m + 1) == rows_sum(adj, x, k, m) + col_sum(adj, x, m as int, k),
    decreases k,
{
    if k > 0 {
        lemma_rows_extend(adj, x, (k - 1) as nat, m);
    }
}

/// Summing over ordered pairs counts each unordered pair twice.
pub proof fn lemma_ordered_twice_unordered(adj: Seq<Seq<u32>>, x: int, m: nat)
    requires
        adj_ok(adj),
    ensures
        rows_sum(adj, x, m, m) == 2 * pairs_sum(adj, x, m),
    decreases m,
{
    if m > 0 {
        let p = (m - 1) as nat;
        lemma_ordered_twice_unordered(adj, x, p);
        lemma_rows_extend(adj, x, p, p);
        lemma_row_col(adj, x, p as int, p);
        lemma_pair_dist_sym(adj, x, p as int, p as int);
        assert(row_sum(adj, x, p as int, m) == row_sum(adj, x, p as int, p) + pair_dist(
            adj,
            x,
            p as int,
            p as int,
        ));
    }
}

// ---------------------------------------------------------------------------
// Deleting a node
// ---------------------------------------------------------------------------

/// A walk that avoids `v` is a walk of the whole graph.
pub proof fn lemma_within_without(adj: Seq<Seq<u32>>, v: int, s: int, k: nat, t: int)
    requires
        within(adj, v, s, k, t),
    ensures
        within(adj, -1, s, k, t),
    decreases k,
{
    lemma_within_nodes(adj, v, s, k, t);
    if k > 0 {
        if within(adj, v, s, (k - 1) as nat, t) {
            lemma_within_without(adj, v, s, (k - 1) as nat, t);
            lemma_within_mono(adj, -1, s, (k - 1) as nat, k, t);
        } else {
            let u = choose|u: int| within(adj, v, s, (k - 1) as nat, u) && #[trigger] edge(adj, u, t);
            lemma_within_without(adj, v, s, (k - 1) as nat, u);
            lemma_within_step(adj, -1, s, (k - 1) as nat, u, t);
        }
    }
}

/// Deleting `v` never shortens the distance between two other nodes.
pub proof fn lemma_distance_without(adj: Seq<Seq<u32>>, v: int, s: int, t: int)
    requires
        reachable(adj, v, s, t),
    ensures
        reachable(adj, -1, s, t),
        distance(adj, -1, s, t) <= distance(adj, v, s, t),
{
    lemma_distance(adj, v, s, t);
    let d = distance(adj, v, s, t);
    lemma_within_without(adj, v, s, d, t);
    lemma_distance(adj, -1, s, t);
    let e = distance(adj, -1, s, t);
    if e > d {
        lemma_within_mono(adj, -1, s, d, (e - 1) as nat, t);
    }
}

/// `v` has exactly one neighbour.
pub open spec fn is_leaf(adj: Seq<Seq<u32>>, v: int) -> bool {
    0 <= v < adj.len() && adj[v].len() == 1
}

/// A walk that reaches a leaf from elsewhere passed its neighbour one step earlier.
proof fn lemma_leaf_entry(adj: Seq<Seq<u32>>, v: int, s: int, j: nat)
    requires
        adj_ok(adj),
        is_leaf(adj, v),
        s != v,
        within(adj, -1, s, j, v),
    ensures
        j >= 1,
        within(adj, -1, s, (j - 1) as nat, adj[v][0] as int),
    decreases j,
{
    if within(adj, -1, s, (j - 1) as nat, v) {
        lemma_leaf_entry(adj, v, s, (j - 1) as nat);
        lemma_within_mono(adj, -1, s, (j - 2) as nat, (j - 1) as nat, adj[v][0] as int);
    } else {
        let u = choose|u: int| within(adj, -1, s, (j - 1) as nat, u) && #[trigger] edge(adj, u, v);
        assert(edge(adj, v, u));
        let i = choose|i: int| 0 <= i < adj[v].len() && adj[v][i] == u as u32;
        lemma_within_nodes(adj, -1, s, (j - 1) as nat, u);
    }
}

/// No walk between two other nodes needs to pass through a leaf.
pub proof fn lemma_leaf_avoidable(adj: Seq<Seq<u32>>, v: int, s: int, k: nat, t: int)
    requires
        adj_ok(adj),
        is_leaf(adj, v),
        s != v,
        t != v,
        within(adj, -1, s, k, t),
    ensures
        within(adj, v, s, k, t),
    decreases k,
{
    lemma_within_nodes(adj, -1, s, k, t);
    if k > 0 {
        if within(adj, -1, s, (k - 1) as nat, t) {
            lemma_leaf_avoidable(adj, v, s, (k - 1) as nat, t);
            lemma_within_mono(adj, v, s, (k - 1) as nat, k, t);
        } else {
            let u = choose|u: int| within(adj, -1, s, (k - 1) as nat, u) && #[trigger] edge(adj, u, t);
            if u != v {
                lemma_leaf_avoidable(adj, v, s, (k - 1) as nat, u);
                lemma_within_step(adj, v, s, (k - 1) as nat, u, t);
            } else {
                let w = adj[v][0] as int;
                let i = choose|i: int| 0 <= i < adj[v].len() && adj[v][i] == t as u32;
                assert(t == w);
                lemma_leaf_entry(adj, v, s, (k - 1) as nat);
                assert(adj[v][0] as int != v);
                lemma_leaf_avoidable(adj, v, s, (k - 2) as nat, w);
                lemma_within_mono(adj, v, s, (k - 2) as nat, k, t);
            }
        }
    }
}

/// Deleting a leaf changes no distance between the other nodes.
pub proof fn lemma_leaf_distances(adj: Seq<Seq<u32>>, v: int, s: int, t: int)
    requires
        adj_ok(adj),
        is_leaf(adj, v),
        s != v,
        t != v,
        reachable(adj, -1, s, t),
    ensures
        reachable(adj, v, s, t),
        distance(adj, -1, s, t) == distance(adj, v, s, t),
{
    lemma_distance(adj, -1, s, t);
    let e = distance(adj, -1, s, t);
    lemma_leaf_avoidable(adj, v, s, e, t);
    lemma_distance_without(adj, v, s, t);
    lemma_distance(adj, v, s, t);
    let d = distance(adj, v, s, t);
    if d > e {
        lemma_within_mono(adj, v, s, e, (d - 1) as nat, t);
    }
}

/// Distances between nodes other than `v` are no longer in the whole graph
/// than with `v` deleted.
pub open spec fn no_shorter_without(adj: Seq<Seq<u32>>, v: int) -> bool {
    forall|s: int, t: int|
        node_in(adj, v, s) && node_in(adj, v, t) ==> #[trigger] pair_dist(adj, -1, s, t) <= pair_dist(
            adj,
            v,
            s,
            t,
        )
}

/// Distances between nodes other than `v` are the same with and without `v`.
pub open spec fn same_without(adj: Seq<Seq<u32>>, v: int) -> bool {
    forall|s: int, t: int|
        node_in(adj, v, s) && node_in(adj, v, t) ==> #[trigger] pair_dist(adj, -1, s, t) == pair_dist(
            adj,
            v,
            s,
            t,
        )
}

proof fn lemma_row_without(adj: Seq<Seq<u32>>, v: int, s: int, m: nat)
    requires
        0 <= v < adj.len(),
        0 <= s < adj.len(),
        s != v,
        no_shorter_without(adj, v),
    ensures
        row_sum(adj, -1, s, m) <= row_sum(adj, v, s, m) + (if v < m { pair_dist(adj, -1, s, v) } else { 0 }),
        same_without(adj, v) ==> row_sum(adj, -1, s, m) == row_sum(adj, v, s, m) + (if v < m {
            pair_dist(adj, -1, s, v)
        } else {
            0
        }),
    decreases m,
{
    if m > 0 {
        lemma_row_without(adj, v, s, (m - 1) as nat);
        let t = m - 1;
        if 0 <= t < adj.len() && t != v {
            assert(pair_dist(adj, -1, s, t) <= pair_dist(adj, v, s, t));
        }
    }
}

proof fn lemma_rows_without(adj: Seq<Seq<u32>>, v: int, k: nat, m: nat)
    requires
        adj_ok(adj),
        0 <= v < adj.len(),
        k <= adj.len(),
        no_shorter_without(adj, v),
    ensures
        rows_sum(adj, -1, k, m) <= rows_sum(adj, v, k, m) + (if v < k { row_sum(adj, -1, v, m) } else { 0 })
            + (if v < m { col_sum(adj, -1, v, k) } else { 0 }),
        same_without(adj, v) ==> rows_sum(adj, -1, k, m) == rows_sum(adj, v, k, m) + (if v < k {
            row_sum(adj, -1, v, m)
        } else {
            0
        }) + (if v < m { col_sum(adj, -1, v, k) } else { 0 }),
    decreases k,
{
    if k > 0 {
        let s = k - 1;
        lemma_rows_without(adj, v, (k - 1) as nat, m);
        if s == v {
            lemma_row_excluded(adj, v, m);
            lemma_pair_dist_sym(adj, -1, v, v);
        } else {
            lemma_row_without(adj, v, s, m);
        }
    }
}

/// The row of the removed node sums to 0.
pub proof fn lemma_row_excluded(adj: Seq<Seq<u32>>, x: int, m: nat)
    ensures
        row_sum(adj, x, x, m) == 0,
    decreases m,
{
    if m > 0 {
        lemma_row_excluded(adj, x, (m - 1) as nat);
    }
}

/// On a connected graph that stays connected without `v`, the Wiener index
/// exceeds that of the graph without `v` by at most the sum of `v`'s distances,
/// and by exactly that sum when deleting `v` changes no other distance.
pub proof fn lemma_wiener_without(adj: Seq<Seq<u32>>, v: int)
    requires
        adj_ok(adj),
        0 <= v < adj.len(),
        connected(adj, v),
    ensures
        no_shorter_without(adj, v),
        pairs_sum(adj, -1, adj.len() as nat) <= pairs_sum(adj, v, adj.len() as nat) + row_sum(
            adj,
            -1,
            v,
            adj.len() as nat,
        ),
        same_without(adj, v) ==> pairs_sum(adj, -1, adj.len() as nat) == pairs_sum(adj, v, adj.len() as nat)
            + row_sum(adj, -1, v, adj.len() as nat),
{
    let n = adj.len() as nat;
    assert forall|s: int, t: int| node_in(adj, v, s) && node_in(adj, v, t) implies #[trigger] pair_dist(
        adj,
        -1,
        s,
        t,
    ) <= pair_dist(adj, v, s, t) by {
        assert(reachable(adj, v, s, t));
        lemma_distance_without(adj, v, s, t);
    }
    lemma_rows_without(adj, v, n, n);
    lemma_row_col(adj, -1, v, n);
    lemma_ordered_twice_unordered(adj, -1, n);
    lemma_ordered_twice_unordered(adj, v, n);
}

// ---------------------------------------------------------------------------
// The graph with a node deleted and the others renumbered
// ---------------------------------------------------------------------------

/// The new id of node `w` once node `v` is deleted.
pub open spec fn renumber(v: int, w: int) -> int {
    if w < v {
        w
    } else {
        w - 1
    }
}

/// The old id of node `i` of the graph with node `v` deleted.
pub open spec fn unrenumber(v: int, i: int) -> int {
    if i < v {
        i
    } else {
        i + 1
    }
}

/// The entries that survive the deletion of node `v`.
pub open spec fn kept(v: int) -> spec_fn(u32) -> bool {
    |w: u32| w as int != v
}

/// The renumbering of surviving entries.
pub open spec fn shifted(v: int) -> spec_fn(u32) -> u32 {
    |w: u32| renumber(v, w as int) as u32
}

/// The graph with node `v` and its edges deleted: the other nodes keep their
/// relative order and are renumbered `0..n - 1`, and each list keeps its order.
pub open spec fn delete_node(adj: Seq<Seq<u32>>, v: int) -> Seq<Seq<u32>> {
    Seq::new(
        (adj.len() - 1) as nat,
        |i: int| adj[unrenumber(v, i)].filter(kept(v)).map_values(shifted(v)),
    )
}

pub proof fn lemma_delete_edge(adj: Seq<Seq<u32>>, v: int, i: int, j: int)
    requires
        adj_ok(adj),
        0 <= v < adj.len(),
        0 <= i < adj.len() - 1,
        0 <= j < adj.len() - 1,
    ensures
        edge(delete_node(adj, v), i, j) <==> edge(adj, unrenumber(v, i), unrenumber(v, j)),
{
    let h = delete_node(adj, v);
    let row = adj[unrenumber(v, i)];
    let f = row.filter(kept(v));
    assert(h[i] == f.map_values(shifted(v)));
    let uj = unrenumber(v, j);
    if edge(adj, unrenumber(v, i), uj) {
        let p = choose|p: int| 0 <= p < row.len() && row[p] == uj as u32;
        row.lemma_filter_contains(kept(v), p);
        let q = choose|q: int| 0 <= q < f.len() && f[q] == uj as u32;
        assert(h[i][q] == j as u32);
    }
    if edge(h, i, j) {
        let q = choose|q: int| 0 <= q < h[i].len() && h[i][q] == j as u32;
        row.lemma_filter_pred(kept(v), q);
        let w = f[q];
        assert(f.contains(w));
        row.lemma_filter_contains_rev(kept(v), w);
        let p = choose|p: int| 0 <= p < row.len() && row[p] == w;
        assert((w as int) < adj.len());
        assert(renumber(v, w as int) as u32 == j as u32);
        assert(w as int == uj);
    }
}

proof fn lemma_delete_within(adj: Seq<Seq<u32>>, v: int, s: int, k: nat, t: int)
    requires
        adj_ok(adj),
        0 <= v < adj.len(),
        0 <= s < adj.len() - 1,
        0 <= t < adj.len() - 1,
    ensures
        within(delete_node(adj, v), -1, s, k, t) <==> within(adj, v, unrenumber(v, s), k, unrenumber(v, t)),
    decreases k,
{
    let h = delete_node(adj, v);
    let us = unrenumber(v, s);
    let ut = unrenumber(v, t);
    if k > 0 {
        let k1 = (k - 1) as nat;
        lemma_delete_within(adj, v, s, k1, t);
        if within(h, -1, s, k, t) && !within(h, -1, s, k1, t) {
            let u = choose|u: int| within(h, -1, s, k1, u) && #[trigger] edge(h, u, t);
            lemma_delete_within(adj, v, s, k1, u);
            lemma_delete_edge(adj, v, u, t);
            lemma_within_step(adj, v, us, k1, unrenumber(v, u), ut);
        }
        if within(adj, v, us, k, ut) && !within(adj, v, us, k1, ut) {
            let u = choose|u: int| within(adj, v, us, k1, u) && #[trigger] edge(adj, u, ut);
            lemma_within_nodes(adj, v, us, k1, u);
            let ru = renumber(v, u);
            assert(unrenumber(v, ru) == u);
            lemma_delete_within(adj, v, s, k1, ru);
            lemma_delete_edge(adj, v, ru, t);
            lemma_within_step(h, -1, s, k1, ru, t);
        }
    }
}

proof fn lemma_delete_pair_dist(adj: Seq<Seq<u32>>, v: int, s: int, t: int)
    requires
        adj_ok(adj),
        0 <= v < adj.len(),
        0 <= s < adj.len() - 1,
        0 <= t < adj.len() - 1,
    ensures
        reachable(delete_node(adj, v), -1, s, t) == reachable(adj, v, unrenumber(v, s), unrenumber(v, t)),
        pair_dist(delete_node(adj, v), -1, s, t) == pair_dist(adj, v, unrenumber(v, s), unrenumber(v, t)),
{
    let h = delete_node(adj, v);
    let us = unrenumber(v, s);
    let ut = unrenumber(v, t);
    if reachable(h, -1, s, t) {
        let k = choose|k: nat| #[trigger] within(h, -1, s, k, t);
        lemma_delete_within(adj, v, s, k, t);
        assert(within(adj, v, us, k, ut));
    }
    if reachable(adj, v, us, ut) {
        let k = choose|k: nat| #[trigger] within(adj, v, us, k, ut);
        lemma_delete_within(adj, v, s, k, t);
        assert(within(h, -1, s, k, t));
        lemma_distance(h, -1, s, t);
        let d = distance(h, -1, s, t);
        lemma_delete_within(adj, v, s, d, t);
        if d > 0 {
            lemma_delete_within(adj, v, s, (d - 1) as nat, t);
        }
        lemma_is_dist_distance(adj, v, us, ut, d);
    }
}

proof fn lemma_delete_col(adj: Seq<Seq<u32>>, v: int, t: int, m: nat)
    requires
        adj_ok(adj),
        0 <= v < adj.len(),
        0 <= t < adj.len() - 1,
        m <= adj.len(),
    ensures
        m <= v ==> col_sum(adj, v, unrenumber(v, t), m) == col_sum(delete_node(adj, v), -1, t, m),
        m > v ==> col_sum(adj, v, unrenumber(v, t), m) == col_sum(
            delete_node(adj, v),
            -1,
            t,
            (m - 1) as nat,
        ),
    decreases m,
{
    if m > 0 {
        lemma_delete_col(adj, v, t, (m - 1) as nat);
        let s = m - 1;
        if s < v {
            lemma_delete_pair_dist(adj, v, s, t);
        } else if s > v {
            lemma_delete_pair_dist(adj, v, s - 1, t);
        }
    }
}

proof fn lemma_delete_pairs(adj: Seq<Seq<u32>>, v: int, m: nat)
    requires
        adj_ok(adj),
        0 <= v < adj.len(),
        m <= adj.len(),
    ensures
        m <= v ==> pairs_sum(adj, v, m) == pairs_sum(delete_node(adj, v), -1, m),
        m > v ==> pairs_sum(adj, v, m) == pairs_sum(delete_node(adj, v), -1, (m - 1) as nat),
    decreases m,
{
    if m > 0 {
        let t = m - 1;
        lemma_delete_pairs(adj, v, (m - 1) as nat);
        if t < v {
            lemma_delete_col(adj, v, t, (m - 1) as nat);
        } else if t == v {
            lemma_col_excluded(adj, v, (m - 1) as nat);
        } else {
            lemma_delete_col(adj, v, t - 1, (m - 1) as nat);
        }
    }
}

proof fn lemma_col_excluded(adj: Seq<Seq<u32>>, x: int, m: nat)
    ensures
        col_sum(adj, x, x, m) == 0,
    decreases m,
{
    if m > 0 {
        lemma_col_excluded(adj, x, (m - 1) as nat);
    }
}

/// The Wiener index of the graph with node `v` excluded is that of the graph
/// with `v` deleted and the other nodes renumbered.
pub proof fn lemma_delete_wiener(adj: Seq<Seq<u32>>, v: int)
    requires
        adj_ok(adj),
        0 <= v < adj.len(),
    ensures
        delete_node(adj, v).len() == adj.len() - 1,
        connected(adj, v) == connected(delete_node(adj, v), -1),
        wiener(adj, v) == wiener(delete_node(adj, v), -1),
{
    let h = delete_node(adj, v);
    assert forall|s: int, t: int| node_in(adj, v, s) && node_in(adj, v, t) && connected(h, -1) implies #[trigger] reachable(
        adj,
        v,
        s,
        t,
    ) by {
        let rs = renumber(v, s);
        let rt = renumber(v, t);
        assert(unrenumber(v, rs) == s && unrenumber(v, rt) == t);
        assert(node_in(h, -1, rs) && node_in(h, -1, rt));
        lemma_delete_pair_dist(adj, v, rs, rt);
    }
    assert forall|s: int, t: int| node_in(h, -1, s) && node_in(h, -1, t) && connected(adj, v) implies #[trigger] reachable(
        h,
        -1,
        s,
        t,
    ) by {
        lemma_delete_pair_dist(adj, v, s, t);
        assert(node_in(adj, v, unrenumber(v, s)) && node_in(adj, v, unrenumber(v, t)));
    }
    lemma_delete_pairs(adj, v, adj.len() as nat);
}

/// Deleting a node leaves the adjacency lists of an undirected graph.
pub proof fn lemma_delete_adj_ok(adj: Seq<Seq<u32>>, v: int)
    requires
        adj_ok(adj),
        0 <= v < adj.len(),
    ensures
        adj_ok(delete_node(adj, v)),
{
    let h = delete_node(adj, v);
    assert forall|i: int, q: int| 0 <= i < h.len() && 0 <= q < h[i].len() implies (#[trigger] h[i][q] as int) < h.len()
        && h[i][q] as int != i by {
        let row = adj[unrenumber(v, i)];
        let f = row.filter(kept(v));
        row.lemma_filter_pred(kept(v), q);
        let w = f[q];
        assert(f.contains(w));
        row.lemma_filter_contains_rev(kept(v), w);
        let p = choose|p: int| 0 <= p < row.len() && row[p] == w;
        assert(h[i][q] == renumber(v, w as int) as u32);
    }
    assert forall|i: int, j: int| #[trigger] edge(h, i, j) implies edge(h, j, i) by {
        lemma_delete_edge(adj, v, i, j);
        lemma_delete_edge(adj, v, j, i);
    }
}

} // verus!

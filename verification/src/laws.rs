//! Properties of closeness vitality, connectivity and the edge-list format
//! that hold for every graph and every text.
use vstd::prelude::*;
use vstd::string::StringSliceAdditionalSpecFns;

use crate::lines::{find, lemma_find_idempotent, line_fields, trim_end, trim_start, ByteClass};
use crate::paths::{
    adj_ok, connected, distance, edge, is_leaf, lemma_distance_sym, lemma_distance_without,
    lemma_hub_connected, lemma_leaf_distances, lemma_wiener_without, node_in, pair_dist,
    pairs_sum, reachable, row_sum, same_without, wiener, within, delete_node, lemma_delete_wiener,
    lemma_delete_adj_ok,
};
use crate::io::{
    edge_list, edges_from, is_bare_label, is_end, joined, lemma_comment_appended,
    lemma_labels_swapped, lemma_lines_swapped, lemma_one_edge_line, lemma_parsed_edges, parsed_from,
    same_joins,
};
use crate::report::{bytes_lt, lex_before};
use vstd::utf8::decode_utf8;
use crate::io::Graph;
use crate::numbering::{is_renumbering, lemma_wiener_renumbered, moved, renumbered};
use crate::{closeness, is_label_vitality, is_vitality_map, is_wiener, Vitality};

verus! {

/// On a connected graph, the vitality of a node is `-inf` exactly when
/// removing the node disconnects the graph (a cut vertex), and an exact
/// integer otherwise; it is never `+inf` or undefined.
pub proof fn law_cut_vertex_vitality(adj: Seq<Seq<u32>>, v: int)
    requires
        connected(adj, -1),
    ensures
        (closeness(adj, v) == Vitality::NegInfinity) <==> !connected(adj, v),
        (closeness(adj, v) is Finite) <==> connected(adj, v),
        closeness(adj, v) != Vitality::PosInfinity,
        closeness(adj, v) != Vitality::Undefined,
{
}

/// On a disconnected graph the Wiener index is infinite, so no vitality is a
/// finite number or `-inf`.
pub proof fn law_disconnected_vitality(adj: Seq<Seq<u32>>, v: int)
    requires
        !connected(adj, -1),
    ensures
        wiener(adj, -1) is None,
        closeness(adj, v) == Vitality::PosInfinity || closeness(adj, v) == Vitality::Undefined,
{
}

/// The Wiener index is finite exactly when the graph is connected.
pub proof fn law_wiener_finite_iff_connected(adj: Seq<Seq<u32>>, x: int)
    ensures
        (wiener(adj, x) is Some) <==> connected(adj, x),
{
}

/// A graph with at most one node is connected.
pub proof fn law_tiny_graph_connected(adj: Seq<Seq<u32>>)
    requires
        adj.len() <= 1,
    ensures
        connected(adj, -1),
{
    assert forall|s: int, t: int| node_in(adj, -1, s) && node_in(adj, -1, t) implies #[trigger] reachable(
        adj,
        -1,
        s,
        t,
    ) by {
        assert(within(adj, -1, s, 0, t));
    }
}

/// A nonempty undirected graph is connected exactly when node 0 reaches every
/// node.
pub proof fn law_connected_iff_node_zero_reaches_all(adj: Seq<Seq<u32>>)
    requires
        adj_ok(adj),
        adj.len() >= 1,
    ensures
        connected(adj, -1) <==> forall|t: int| node_in(adj, -1, t) ==> #[trigger] reachable(adj, -1, 0, t),
{
    if forall|t: int| node_in(adj, -1, t) ==> #[trigger] reachable(adj, -1, 0, t) {
        lemma_hub_connected(adj, -1, 0);
    }
    if connected(adj, -1) {
        assert forall|t: int| node_in(adj, -1, t) implies #[trigger] reachable(adj, -1, 0, t) by {
            assert(node_in(adj, -1, 0));
        }
    }
}

/// Shortest-path distances in an undirected graph (with or without a node
/// removed) are symmetric, and so is reachability.
pub proof fn law_distance_symmetric(adj: Seq<Seq<u32>>, x: int, s: int, t: int)
    requires
        adj_ok(adj),
    ensures
        reachable(adj, x, s, t) == reachable(adj, x, t, s),
        distance(adj, x, s, t) == distance(adj, x, t, s),
{
    lemma_distance_sym(adj, x, s, t);
}

/// A `#` starts a comment anywhere in a line: a line gives the same fields as
/// its part before its first `#`, and a line whose first `#` is its first byte
/// gives no token.
pub proof fn law_comment_ignored(b: Seq<u8>, s: int, e: int)
    requires
        0 <= s <= e <= b.len(),
    ensures
        line_fields(b, s, e) == line_fields(b, s, find(b, s, e, ByteClass::Hash)),
        find(b, s, e, ByteClass::Hash) == s ==> line_fields(b, s, e).1 == line_fields(b, s, e).0,
{
    lemma_find_idempotent(b, s, e, ByteClass::Hash);
    let c = find(b, s, e, ByteClass::Hash);
    if c == s {
        assert(trim_start(b, s, s) == s);
        assert(trim_end(b, s, s) == s);
    }
}

/// Deleting a node never shortens the distance between two other nodes. So on
/// a connected graph, a node `v` that is not a cut vertex has a finite
/// vitality of at most the sum of its distances to the other nodes; a node with
/// a single neighbour is never a cut vertex, and its vitality is exactly that sum.
pub proof fn law_vitality_at_most_distance_sum(adj: Seq<Seq<u32>>, v: int)
    requires
        adj_ok(adj),
        connected(adj, -1),
        0 <= v < adj.len(),
    ensures
        forall|s: int, t: int|
            node_in(adj, v, s) && node_in(adj, v, t) && reachable(adj, v, s, t) ==> #[trigger] distance(
                adj,
                -1,
                s,
                t,
            ) <= distance(adj, v, s, t),
        connected(adj, v) ==> closeness(adj, v) == Vitality::Finite(
            (pairs_sum(adj, -1, adj.len() as nat) - pairs_sum(adj, v, adj.len() as nat)) as i64,
        ),
        connected(adj, v) ==> pairs_sum(adj, -1, adj.len() as nat) <= pairs_sum(adj, v, adj.len() as nat)
            + row_sum(adj, -1, v, adj.len() as nat),
        is_leaf(adj, v) ==> connected(adj, v) && pairs_sum(adj, -1, adj.len() as nat) == pairs_sum(
            adj,
            v,
            adj.len() as nat,
        ) + row_sum(adj, -1, v, adj.len() as nat),
{
    assert forall|s: int, t: int|
        node_in(adj, v, s) && node_in(adj, v, t) && reachable(adj, v, s, t) implies #[trigger] distance(
        adj,
        -1,
        s,
        t,
    ) <= distance(adj, v, s, t) by {
        lemma_distance_without(adj, v, s, t);
    }
    if connected(adj, v) {
        lemma_wiener_without(adj, v);
    }
    if is_leaf(adj, v) {
        assert forall|s: int, t: int| node_in(adj, v, s) && node_in(adj, v, t) implies #[trigger] reachable(
            adj,
            v,
            s,
            t,
        ) by {
            assert(reachable(adj, -1, s, t));
            lemma_leaf_distances(adj, v, s, t);
        }
        assert forall|s: int, t: int| node_in(adj, v, s) && node_in(adj, v, t) implies #[trigger] pair_dist(
            adj,
            -1,
            s,
            t,
        ) == pair_dist(adj, v, s, t) by {
            assert(reachable(adj, -1, s, t));
            lemma_leaf_distances(adj, v, s, t);
        }
        assert(same_without(adj, v));
        lemma_wiener_without(adj, v);
    }
}

/// The Wiener index of `G - v`, computed with `v` excluded, is the Wiener index
/// of the graph in which `v` and its edges are deleted and the other nodes are
/// renumbered in order (infinite for both or for neither); that graph is again
/// undirected.
pub proof fn law_excluding_is_deleting(adj: Seq<Seq<u32>>, v: int)
    requires
        adj_ok(adj),
        0 <= v < adj.len(),
    ensures
        adj_ok(delete_node(adj, v)),
        delete_node(adj, v).len() == adj.len() - 1,
        wiener(adj, v) == wiener(delete_node(adj, v), -1),
{
    lemma_delete_adj_ok(adj, v);
    lemma_delete_wiener(adj, v);
}

/// A `#` starts a comment that runs to the end of its line, whatever text
/// follows it: appending `#` and any text without a line feed to one line of
/// an edge-list text (`line`, which follows the text `a` of the lines before
/// it and is followed by the text `r` of the lines after it) leaves the edges
/// that the text gives, or the line that it refuses, unchanged.
pub proof fn law_appended_comment(a: Seq<u8>, line: Seq<u8>, c: Seq<u8>, r: Seq<u8>)
    requires
        a.len() == 0 || a.last() == 0x0au8,
        forall|j: int| 0 <= j < line.len() ==> #[trigger] line[j] != 0x0au8,
        forall|j: int| 0 <= j < c.len() ==> #[trigger] c[j] != 0x0au8,
        r.len() == 0 || r[0] == 0x0au8,
    ensures
        edges_from(a + line + seq![0x23u8] + c + r, 0, 1) == edges_from(a + line + r, 0, 1),
        forall|t1: &str, t2: &str|
            t1.spec_bytes() == a + line + seq![0x23u8] + c + r && t2.spec_bytes() == a + line + r
                ==> #[trigger] edge_list(t1) == #[trigger] edge_list(t2),
{
    lemma_comment_appended(a, line, c, r);
}

/// What a Wiener-index computation returns is fixed by the graph and the node
/// left out: two results that both meet its contract are equal, whatever
/// scratch buffers the computations were handed.
pub proof fn law_wiener_result_determined(adj: Seq<Seq<u32>>, x: int, w1: Option<u64>, w2: Option<u64>)
    requires
        is_wiener(adj, x, w1),
        is_wiener(adj, x, w2),
    ensures
        w1 == w2,
{
}

/// Connectivity, a finite Wiener index and every pair of nodes being joined by
/// a walk coincide; on a nonempty graph they also coincide with node 0
/// reaching every node, so the answer does not depend on where a search
/// starts.
pub proof fn law_connected_iff_finite_wiener(adj: Seq<Seq<u32>>, w: Option<u64>)
    requires
        adj_ok(adj),
        is_wiener(adj, -1, w),
    ensures
        connected(adj, -1) <==> w is Some,
        connected(adj, -1) <==> forall|s: int, t: int|
            0 <= s < adj.len() && 0 <= t < adj.len() ==> #[trigger] reachable(adj, -1, s, t),
        adj.len() >= 1 ==> (connected(adj, -1) <==> forall|t: int|
            0 <= t < adj.len() ==> #[trigger] reachable(adj, -1, 0, t)),
{
    if adj.len() >= 1 {
        law_connected_iff_node_zero_reaches_all(adj);
    }
}

/// Asking for one label gives what the whole vitality map holds for it:
/// nothing exactly when the map has no such key, and otherwise the same value.
pub proof fn law_node_query_matches_map(
    g: Graph,
    m: Map<Seq<char>, Vitality>,
    label: Seq<char>,
    r: Option<Vitality>,
)
    requires
        g.wf(),
        is_vitality_map(g, m),
        is_label_vitality(g, label, r),
    ensures
        r is None <==> !m.contains_key(label),
        r matches Some(x) ==> m.contains_key(label) && m[label] == x,
{
    if g.has_label(label) {
        let i = choose|i: int| 0 <= i < g.labels@.len() && #[trigger] g.label(i) == label;
        assert(m.contains_key(g.label(i)));
    }
}

/// The vitalities depend only on the labelled graph, not on the order in which
/// its nodes were numbered: two graphs with the same labels, and an edge
/// between two labels in one exactly when there is one in the other, give
/// every label the same vitality, and so the same vitality map.
pub proof fn law_vitality_ignores_numbering(g1: Graph, g2: Graph)
    requires
        g1.wf(),
        g2.wf(),
        g1.index@.dom() == g2.index@.dom(),
        forall|l1: Seq<char>, l2: Seq<char>|
            #![trigger edge(g1.adj_view(), g1.index@[l1] as int, g1.index@[l2] as int)]
            #![trigger edge(g2.adj_view(), g2.index@[l1] as int, g2.index@[l2] as int)]
            g1.index@.contains_key(l1) && g1.index@.contains_key(l2) ==> (edge(
                g1.adj_view(),
                g1.index@[l1] as int,
                g1.index@[l2] as int,
            ) <==> edge(g2.adj_view(), g2.index@[l1] as int, g2.index@[l2] as int)),
    ensures
        forall|l: Seq<char>|
            #[trigger] g1.index@.contains_key(l) ==> closeness(g1.adj_view(), g1.index@[l] as int)
                == closeness(g2.adj_view(), g2.index@[l] as int),
        forall|m1: Map<Seq<char>, Vitality>, m2: Map<Seq<char>, Vitality>|
            is_vitality_map(g1, m1) && is_vitality_map(g2, m2) ==> m1 == m2,
{
    let a1 = g1.adj_view();
    let a2 = g2.adj_view();
    let i1 = g1.index@;
    let i2 = g2.index@;
    let n = a1.len() as int;
    assert(i1.len() == i2.len());
    assert(a2.len() == n);
    let p = |i: int| i2[g1.label(i)] as int;
    let q = |j: int| i1[g2.label(j)] as int;
    assert forall|i: int| 0 <= i < n implies 0 <= #[trigger] p(i) < n && q(p(i)) == i by {
        assert(i1.contains_key(g1.labels@[i]@));
        assert(i2.contains_key(g1.label(i)));
        assert(g2.labels@[i2[g1.label(i)] as int]@ == g1.label(i));
    }
    assert forall|j: int| 0 <= j < n implies 0 <= #[trigger] q(j) < n && p(q(j)) == j by {
        assert(i2.contains_key(g2.labels@[j]@));
        assert(i1.contains_key(g2.label(j)));
        assert(g1.labels@[i1[g2.label(j)] as int]@ == g2.label(j));
    }
    assert forall|u: int, w: int| 0 <= u < n && 0 <= w < n implies (#[trigger] edge(a1, u, w) <==> edge(
        a2,
        p(u),
        p(w),
    )) by {
        assert(i1.contains_key(g1.labels@[u]@));
        assert(i1.contains_key(g1.labels@[w]@));
        assert(i1[g1.label(u)] == u);
        assert(i1[g1.label(w)] == w);
        assert(edge(a1, i1[g1.label(u)] as int, i1[g1.label(w)] as int) <==> edge(
            a2,
            i2[g1.label(u)] as int,
            i2[g1.label(w)] as int,
        ));
    }
    assert(renumbered(a1, a2, p, q));
    lemma_wiener_renumbered(a1, a2, p, q, -1);
    assert(moved(p, n, -1) == -1);
    assert forall|l: Seq<char>| #[trigger] i1.contains_key(l) implies closeness(a1, i1[l] as int) == closeness(
        a2,
        i2[l] as int,
    ) by {
        let v = i1[l] as int;
        assert(g1.labels@[v]@ == l);
        assert(p(v) == i2[l] as int);
        lemma_wiener_renumbered(a1, a2, p, q, v);
    }
    assert forall|m1: Map<Seq<char>, Vitality>, m2: Map<Seq<char>, Vitality>|
        is_vitality_map(g1, m1) && is_vitality_map(g2, m2) implies m1 == m2 by {
        assert forall|k: Seq<char>| #[trigger] m1.contains_key(k) <==> m2.contains_key(k) by {
            if m1.contains_key(k) {
                let i = choose|i: int| 0 <= i < g1.labels@.len() && #[trigger] g1.label(i) == k;
                assert(i1.contains_key(g1.labels@[i]@));
                let j = i2[k] as int;
                assert(g2.labels@[j]@ == k);
                assert(m2.contains_key(g2.label(j)));
            }
            if m2.contains_key(k) {
                let j = choose|j: int| 0 <= j < g2.labels@.len() && #[trigger] g2.label(j) == k;
                assert(i2.contains_key(g2.labels@[j]@));
                let i = i1[k] as int;
                assert(g1.labels@[i]@ == k);
                assert(m1.contains_key(g1.label(i)));
            }
        }
        assert forall|k: Seq<char>| #[trigger] m1.contains_key(k) implies m1[k] == m2[k] by {
            let i = choose|i: int| 0 <= i < g1.labels@.len() && #[trigger] g1.label(i) == k;
            assert(i1.contains_key(g1.labels@[i]@));
            assert(i1[k] == i);
            let j = i2[k] as int;
            assert(g2.labels@[j]@ == k);
            assert(m1[g1.label(i)] == closeness(a1, i));
            assert(m2[g2.label(j)] == closeness(a2, j));
            assert(i1.contains_key(k));
        }
        assert(m1 =~= m2);
    }
}

/// The vitality map of an edge-list text depends only on which pairs of labels
/// its edges join, not on the order of its lines nor on the order of the two
/// labels within a line: two texts whose edges join the same pairs of labels
/// are read into graphs with the same labels that give every label the same
/// vitality, and so the same vitality map.
pub proof fn law_vitality_depends_only_on_edges(t1: &str, t2: &str, g1: Graph, g2: Graph)
    requires
        parsed_from(g1, t1),
        parsed_from(g2, t2),
        forall|l1: Seq<char>, l2: Seq<char>|
            #![trigger joined(edge_list(t1)->Ok_0, l1, l2)]
            #![trigger joined(edge_list(t2)->Ok_0, l1, l2)]
            joined(edge_list(t1)->Ok_0, l1, l2) <==> joined(edge_list(t2)->Ok_0, l1, l2),
    ensures
        g1.index@.dom() == g2.index@.dom(),
        forall|l: Seq<char>|
            #[trigger] g1.index@.contains_key(l) ==> closeness(g1.adj_view(), g1.index@[l] as int)
                == closeness(g2.adj_view(), g2.index@[l] as int),
        forall|m1: Map<Seq<char>, Vitality>, m2: Map<Seq<char>, Vitality>|
            is_vitality_map(g1, m1) && is_vitality_map(g2, m2) ==> m1 == m2,
{
    let e1 = edge_list(t1)->Ok_0;
    let e2 = edge_list(t2)->Ok_0;
    lemma_parsed_edges(g1, t1);
    lemma_parsed_edges(g2, t2);
    assert forall|l: Seq<char>| is_end(e1, l) <==> is_end(e2, l) by {
        if is_end(e1, l) {
            let k = choose|k: int| #![trigger e1[k]] 0 <= k < e1.len() && (e1[k].0 == l || e1[k].1 == l);
            let o = if e1[k].0 == l { e1[k].1 } else { e1[k].0 };
            assert(joined(e1, l, o));
            assert(joined(e2, l, o));
            let j = choose|j: int|
                #![trigger e2[j]]
                0 <= j < e2.len() && ((e2[j].0 == l && e2[j].1 == o) || (e2[j].0 == o && e2[j].1 == l));
            assert(is_end(e2, l));
        }
        if is_end(e2, l) {
            let k = choose|k: int| #![trigger e2[k]] 0 <= k < e2.len() && (e2[k].0 == l || e2[k].1 == l);
            let o = if e2[k].0 == l { e2[k].1 } else { e2[k].0 };
            assert(joined(e2, l, o));
            assert(joined(e1, l, o));
            let j = choose|j: int|
                #![trigger e1[j]]
                0 <= j < e1.len() && ((e1[j].0 == l && e1[j].1 == o) || (e1[j].0 == o && e1[j].1 == l));
            assert(is_end(e1, l));
        }
    }
    assert(g1.index@.dom() =~= g2.index@.dom()) by {
        assert forall|l: Seq<char>| g1.index@.dom().contains(l) <==> g2.index@.dom().contains(l) by {
            assert(g1.index@.contains_key(l) <==> is_end(e1, l));
            assert(g2.index@.contains_key(l) <==> is_end(e2, l));
        }
    }
    assert forall|l1: Seq<char>, l2: Seq<char>|
        g1.index@.contains_key(l1) && g1.index@.contains_key(l2) implies (edge(
        g1.adj_view(),
        g1.index@[l1] as int,
        g1.index@[l2] as int,
    ) <==> edge(g2.adj_view(), g2.index@[l1] as int, g2.index@[l2] as int)) by {
        assert(joined(e1, l1, l2) <==> joined(e2, l1, l2));
        assert(g2.index@.contains_key(l1) && g2.index@.contains_key(l2));
    }
    law_vitality_ignores_numbering(g1, g2);
}

/// Reordering the edges of an edge list, and swapping the two labels of any of
/// them, joins the same pairs of labels: here edge `k` of `e1` is edge `p(k)`
/// of `e2`, possibly with its labels swapped.
pub proof fn law_reordered_edges_join_the_same(
    e1: Seq<(Seq<char>, Seq<char>)>,
    e2: Seq<(Seq<char>, Seq<char>)>,
    p: spec_fn(int) -> int,
    q: spec_fn(int) -> int,
)
    requires
        e1.len() == e2.len(),
        is_renumbering(p, q, e1.len() as int),
        forall|k: int|
            0 <= k < e1.len() ==> #[trigger] e2[p(k)] == e1[k] || e2[p(k)] == (e1[k].1, e1[k].0),
    ensures
        forall|l1: Seq<char>, l2: Seq<char>| joined(e1, l1, l2) <==> joined(e2, l1, l2),
{
    assert forall|l1: Seq<char>, l2: Seq<char>| joined(e1, l1, l2) <==> joined(e2, l1, l2) by {
        if joined(e1, l1, l2) {
            let k = choose|k: int|
                #![trigger e1[k]]
                0 <= k < e1.len() && ((e1[k].0 == l1 && e1[k].1 == l2) || (e1[k].0 == l2 && e1[k].1 == l1));
            assert(e2[p(k)] == e1[k] || e2[p(k)] == (e1[k].1, e1[k].0));
        }
        if joined(e2, l1, l2) {
            let j = choose|j: int|
                #![trigger e2[j]]
                0 <= j < e2.len() && ((e2[j].0 == l1 && e2[j].1 == l2) || (e2[j].0 == l2 && e2[j].1 == l1));
            let k = q(j);
            assert(p(k) == j);
            assert(e2[p(k)] == e1[k] || e2[p(k)] == (e1[k].1, e1[k].0));
        }
    }
}

/// Swapping two neighbouring lines of an edge-list text (`l1` and `l2`, after
/// the text `a` of the lines before them and before the text `r` of the lines
/// after them) keeps the text accepted or refused, and, accepted, keeps the
/// pairs of labels that its edges join. Any reordering of the lines is a
/// sequence of such swaps.
pub proof fn law_swapped_lines_join_the_same(a: Seq<u8>, l1: Seq<u8>, l2: Seq<u8>, r: Seq<u8>)
    requires
        a.len() == 0 || a.last() == 0x0au8,
        forall|j: int| 0 <= j < l1.len() ==> #[trigger] l1[j] != 0x0au8,
        forall|j: int| 0 <= j < l2.len() ==> #[trigger] l2[j] != 0x0au8,
        r.len() == 0 || r[0] == 0x0au8,
    ensures
        same_joins(
            edges_from(a + l1 + seq![0x0au8] + l2 + r, 0, 1),
            edges_from(a + l2 + seq![0x0au8] + l1 + r, 0, 1),
        ),
{
    lemma_lines_swapped(a, l1, l2, r);
}

/// Swapping two neighbouring lines of an edge-list text keeps the vitality
/// map: the graphs read from the two texts have the same labels, give every
/// label the same vitality, and so give the same map.
pub proof fn law_swapped_lines_keep_vitalities(
    a: Seq<u8>,
    l1: Seq<u8>,
    l2: Seq<u8>,
    r: Seq<u8>,
    t1: &str,
    t2: &str,
    g1: Graph,
    g2: Graph,
)
    requires
        a.len() == 0 || a.last() == 0x0au8,
        forall|j: int| 0 <= j < l1.len() ==> #[trigger] l1[j] != 0x0au8,
        forall|j: int| 0 <= j < l2.len() ==> #[trigger] l2[j] != 0x0au8,
        r.len() == 0 || r[0] == 0x0au8,
        t1.spec_bytes() == a + l1 + seq![0x0au8] + l2 + r,
        t2.spec_bytes() == a + l2 + seq![0x0au8] + l1 + r,
        parsed_from(g1, t1),
        parsed_from(g2, t2),
    ensures
        g1.index@.dom() == g2.index@.dom(),
        forall|l: Seq<char>|
            #[trigger] g1.index@.contains_key(l) ==> closeness(g1.adj_view(), g1.index@[l] as int)
                == closeness(g2.adj_view(), g2.index@[l] as int),
        forall|m1: Map<Seq<char>, Vitality>, m2: Map<Seq<char>, Vitality>|
            is_vitality_map(g1, m1) && is_vitality_map(g2, m2) ==> m1 == m2,
{
    lemma_lines_swapped(a, l1, l2, r);
    law_vitality_depends_only_on_edges(t1, t2, g1, g2);
}

/// Swapping the two labels of a line `x y` (after the text `a` of the lines
/// before it and before the text `r` of the lines after it) keeps the text
/// accepted or refused, and, accepted, keeps the pairs of labels that its
/// edges join. The labels are bare: neither starts nor ends with a whitespace
/// character, which trimming the line would remove in one order and not in
/// the other.
pub proof fn law_swapped_labels_join_the_same(a: Seq<u8>, x: Seq<u8>, y: Seq<u8>, r: Seq<u8>)
    requires
        a.len() == 0 || a.last() == 0x0au8,
        is_bare_label(x),
        is_bare_label(y),
        r.len() == 0 || r[0] == 0x0au8,
    ensures
        same_joins(
            edges_from(a + x + seq![0x20u8] + y + r, 0, 1),
            edges_from(a + y + seq![0x20u8] + x + r, 0, 1),
        ),
{
    lemma_labels_swapped(a, x, y, r);
}

/// Swapping the two bare labels of a line `x y` keeps the vitality map: the
/// graphs read from the two texts have the same labels, give every label the
/// same vitality, and so give the same map.
pub proof fn law_swapped_labels_keep_vitalities(
    a: Seq<u8>,
    x: Seq<u8>,
    y: Seq<u8>,
    r: Seq<u8>,
    t1: &str,
    t2: &str,
    g1: Graph,
    g2: Graph,
)
    requires
        a.len() == 0 || a.last() == 0x0au8,
        is_bare_label(x),
        is_bare_label(y),
        r.len() == 0 || r[0] == 0x0au8,
        t1.spec_bytes() == a + x + seq![0x20u8] + y + r,
        t2.spec_bytes() == a + y + seq![0x20u8] + x + r,
        parsed_from(g1, t1),
        parsed_from(g2, t2),
    ensures
        g1.index@.dom() == g2.index@.dom(),
        forall|l: Seq<char>|
            #[trigger] g1.index@.contains_key(l) ==> closeness(g1.adj_view(), g1.index@[l] as int)
                == closeness(g2.adj_view(), g2.index@[l] as int),
        forall|m1: Map<Seq<char>, Vitality>, m2: Map<Seq<char>, Vitality>|
            is_vitality_map(g1, m1) && is_vitality_map(g2, m2) ==> m1 == m2,
{
    lemma_labels_swapped(a, x, y, r);
    law_vitality_depends_only_on_edges(t1, t2, g1, g2);
}

/// The order in which the table lists labels is the byte order of `str`: `a`
/// comes before `b` exactly when `a` is a proper prefix of `b`, or when at the
/// first position where they differ the byte of `a` is the smaller (so "0"
/// before "1" before "10" before "2").
pub proof fn law_label_order_is_byte_order(a: Seq<u8>, b: Seq<u8>)
    ensures
        bytes_lt(a, b) <==> ({
            ||| (a.len() < b.len() && forall|j: int| 0 <= j < a.len() ==> a[j] == b[j])
            ||| exists|k: int|
                0 <= k < a.len() && k < b.len() && a[k] < b[k] && forall|j: int|
                    0 <= j < k ==> a[j] == b[j]
        }),
        bytes_lt(a, b) <==> lex_before(a, b),
    decreases a.len(),
{
    if a.len() > 0 && b.len() > 0 {
        if a[0] != b[0] {
            if a[0] < b[0] {
                assert(0 < a.len() && 0 < b.len() && a[0] < b[0] && forall|j: int|
                    0 <= j < 0 ==> a[j] == b[j]);
            }
            if exists|k: int|
                0 <= k < a.len() && k < b.len() && a[k] < b[k] && forall|j: int| 0 <= j < k ==> a[j] == b[j] {
                let k = choose|k: int|
                    0 <= k < a.len() && k < b.len() && a[k] < b[k] && forall|j: int|
                        0 <= j < k ==> a[j] == b[j];
                if k > 0 {
                    assert(a[0] == b[0]);
                }
            }
        } else {
            let a1 = a.drop_first();
            let b1 = b.drop_first();
            law_label_order_is_byte_order(a1, b1);
            if a1.len() < b1.len() && forall|j: int| 0 <= j < a1.len() ==> a1[j] == b1[j] {
                assert forall|j: int| 0 <= j < a.len() implies a[j] == b[j] by {
                    if j > 0 {
                        assert(a[j] == a1[j - 1] && b[j] == b1[j - 1]);
                    }
                }
            }
            if a.len() < b.len() && forall|j: int| 0 <= j < a.len() ==> a[j] == b[j] {
                assert forall|j: int| 0 <= j < a1.len() implies a1[j] == b1[j] by {
                    assert(a[j + 1] == b[j + 1]);
                }
            }
            if exists|k: int|
                0 <= k < a1.len() && k < b1.len() && a1[k] < b1[k] && forall|j: int|
                    0 <= j < k ==> a1[j] == b1[j] {
                let k = choose|k: int|
                    0 <= k < a1.len() && k < b1.len() && a1[k] < b1[k] && forall|j: int|
                        0 <= j < k ==> a1[j] == b1[j];
                assert forall|j: int| 0 <= j < k + 1 implies a[j] == b[j] by {
                    if j > 0 {
                        assert(a1[j - 1] == b1[j - 1]);
                    }
                }
                assert(a[k + 1] == a1[k] && b[k + 1] == b1[k]);
            }
            if exists|k: int|
                0 <= k < a.len() && k < b.len() && a[k] < b[k] && forall|j: int| 0 <= j < k ==> a[j] == b[j] {
                let k = choose|k: int|
                    0 <= k < a.len() && k < b.len() && a[k] < b[k] && forall|j: int|
                        0 <= j < k ==> a[j] == b[j];
                assert(k > 0);
                assert forall|j: int| 0 <= j < k - 1 implies a1[j] == b1[j] by {
                    assert(a[j + 1] == b[j + 1]);
                }
                assert(a1[k - 1] == a[k] && b1[k - 1] == b[k]);
            }
        }
    } else if a.len() > 0 {
        assert(!(exists|k: int|
            0 <= k < a.len() && k < b.len() && a[k] < b[k] && forall|j: int| 0 <= j < k ==> a[j] == b[j]));
    } else {
        assert(!(exists|k: int|
            0 <= k < a.len() && k < b.len() && a[k] < b[k] && forall|j: int| 0 <= j < k ==> a[j] == b[j]));
    }
}

/// The labels of a line are separated by exactly the ASCII whitespace bytes
/// (space, tab, line feed, form feed, carriage return): a line of two distinct
/// labels `x` and `y` with a space, tab, form feed or carriage return between
/// them gives exactly the edge joining `x` and `y`, whatever other bytes the
/// labels hold. (Trimming the line would remove a whitespace character at
/// either end, so the labels' outer bytes are ASCII and not a vertical tab.)
pub proof fn law_labels_split_at_ascii_whitespace(x: Seq<u8>, y: Seq<u8>, sep: u8)
    requires
        x.len() > 0,
        y.len() > 0,
        forall|j: int|
            0 <= j < x.len() ==> #[trigger] x[j] != 0x20u8 && x[j] != 0x09u8 && x[j] != 0x0au8 && x[j]
                != 0x0cu8 && x[j] != 0x0du8 && x[j] != 0x23u8,
        forall|j: int|
            0 <= j < y.len() ==> #[trigger] y[j] != 0x20u8 && y[j] != 0x09u8 && y[j] != 0x0au8 && y[j]
                != 0x0cu8 && y[j] != 0x0du8 && y[j] != 0x23u8,
        x[0] < 0x80u8 && x[0] != 0x0bu8 && x.last() < 0x80u8 && x.last() != 0x0bu8,
        y[0] < 0x80u8 && y[0] != 0x0bu8 && y.last() < 0x80u8 && y.last() != 0x0bu8,
        sep == 0x20u8 || sep == 0x09u8 || sep == 0x0cu8 || sep == 0x0du8,
        x != y,
    ensures
        edges_from(x + seq![sep] + y, 0, 1) == Ok::<Seq<(Seq<char>, Seq<char>)>, nat>(
            seq![(decode_utf8(x), decode_utf8(y))],
        ),
        forall|t: &str|
            #[trigger] t.spec_bytes() == x + seq![sep] + y ==> edge_list(t) == Ok::<
                Seq<(Seq<char>, Seq<char>)>,
                nat,
            >(seq![(decode_utf8(x), decode_utf8(y))]),
{
    lemma_one_edge_line(x, y, sep);
}

} // verus!

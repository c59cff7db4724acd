//! Walks, distances and Wiener indices do not depend on how the nodes of a
//! graph are numbered.
use vstd::prelude::*;

use crate::paths::{
    adj_ok, connected, distance, edge, is_dist, lemma_distance, lemma_is_dist_distance,
    lemma_ordered_twice_unordered, node_in, pair_dist, pairs_sum, reachable, row_sum, rows_sum,
    wiener, within,
};

verus! {

/// `p` numbers the nodes `0..n` anew, one to one, and `q` undoes it.
pub open spec fn is_renumbering(p: spec_fn(int) -> int, q: spec_fn(int) -> int, n: int) -> bool {
    &&& forall|i: int| 0 <= i < n ==> 0 <= #[trigger] p(i) < n && q(p(i)) == i
    &&& forall|j: int| 0 <= j < n ==> 0 <= #[trigger] q(j) < n && p(q(j)) == j
}

/// `adj2` is the graph `adj1` with node `i` numbered `p(i)`.
pub open spec fn renumbered(
    adj1: Seq<Seq<u32>>,
    adj2: Seq<Seq<u32>>,
    p: spec_fn(int) -> int,
    q: spec_fn(int) -> int,
) -> bool {
    &&& adj1.len() == adj2.len()
    &&& is_renumbering(p, q, adj1.len() as int)
    &&& forall|u: int, w: int|
        0 <= u < adj1.len() && 0 <= w < adj1.len() ==> (#[trigger] edge(adj1, u, w) <==> edge(
            adj2,
            p(u),
            p(w),
        ))
}

/// The number that `p` gives to `x`; a value that names no node stays as it is.
pub open spec fn moved(p: spec_fn(int) -> int, n: int, x: int) -> int {
    if 0 <= x < n {
        p(x)
    } else {
        x
    }
}

/// The sum of `f(i)` over `i < m`.
pub open spec fn total(f: spec_fn(int) -> nat, m: nat) -> nat
    decreases m,
{
    if m == 0 {
        0
    } else {
        total(f, (m - 1) as nat) + f(m - 1)
    }
}

proof fn lemma_total_ext(f: spec_fn(int) -> nat, g: spec_fn(int) -> nat, m: nat)
    requires
        forall|i: int| 0 <= i < m ==> #[trigger] f(i) == g(i),
    ensures
        total(f, m) == total(g, m),
    decreases m,
{
    if m > 0 {
        lemma_total_ext(f, g, (m - 1) as nat);
    }
}

/// Changing one term changes the sum by the difference.
proof fn lemma_total_update(f: spec_fn(int) -> nat, g: spec_fn(int) -> nat, j: int, m: nat)
    requires
        0 <= j < m,
        forall|i: int| 0 <= i < m && i != j ==> #[trigger] f(i) == g(i),
    ensures
        total(g, m) + f(j) == total(f, m) + g(j),
    decreases m,
{
    if j < m - 1 {
        lemma_total_update(f, g, j, (m - 1) as nat);
        assert(f(m - 1) == g(m - 1));
    } else {
        lemma_total_ext(f, g, (m - 1) as nat);
    }
}

/// A sum does not depend on the order of its terms.
proof fn lemma_total_permute(f: spec_fn(int) -> nat, p: spec_fn(int) -> int, q: spec_fn(int) -> int, m: nat)
    requires
        is_renumbering(p, q, m as int),
    ensures
        total(|i: int| f(p(i)), m) == total(f, m),
    decreases m,
{
    if m > 0 {
        let n1 = (m - 1) as nat;
        let last = m - 1;
        let j = q(last);
        let fp = |i: int| f(p(i));
        assert(p(j) == last);
        if j == last {
            assert(is_renumbering(p, q, n1 as int)) by {
                assert forall|i: int| 0 <= i < n1 implies 0 <= #[trigger] p(i) < n1 && q(p(i)) == i by {
                    if p(i) == last {
                        assert(q(p(i)) == j);
                    }
                }
                assert forall|y: int| 0 <= y < n1 implies 0 <= #[trigger] q(y) < n1 && p(q(y)) == y by {
                    if q(y) == last {
                        assert(p(q(y)) == p(j));
                    }
                }
            }
            lemma_total_permute(f, p, q, n1);
            lemma_total_ext(fp, |i: int| f(p(i)), n1);
        } else {
            let pl = p(last);
            let p2 = |i: int| if i == j { pl } else { p(i) };
            let q2 = |y: int| if y == pl { j } else { q(y) };
            assert(q(pl) == last);
            assert(pl != last);
            assert(is_renumbering(p2, q2, n1 as int)) by {
                assert forall|i: int| 0 <= i < n1 implies 0 <= #[trigger] p2(i) < n1 && q2(p2(i)) == i by {
                    if i != j {
                        if p(i) == last {
                            assert(q(p(i)) == j);
                        }
                        if p(i) == pl {
                            assert(q(p(i)) == q(pl));
                        }
                    }
                }
                assert forall|y: int| 0 <= y < n1 implies 0 <= #[trigger] q2(y) < n1 && p2(q2(y)) == y by {
                    if y != pl {
                        if q(y) == last {
                            assert(p(q(y)) == pl);
                        }
                        if q(y) == j {
                            assert(p(q(y)) == p(j));
                        }
                    }
                }
            }
            lemma_total_permute(f, p2, q2, n1);
            let fp2 = |i: int| f(p2(i));
            assert(fp(j) == f(last));
            assert(fp2(j) == f(pl));
            lemma_total_update(fp, fp2, j, n1);
            lemma_total_ext(fp2, |i: int| f(p2(i)), n1);
        }
    }
}

/// The sum of a row of distances.
proof fn lemma_row_total(adj: Seq<Seq<u32>>, x: int, s: int, m: nat)
    ensures
        row_sum(adj, x, s, m) == total(|t: int| pair_dist(adj, x, s, t), m),
    decreases m,
{
    if m > 0 {
        lemma_row_total(adj, x, s, (m - 1) as nat);
    }
}

/// The sum over ordered pairs, row by row.
proof fn lemma_rows_total(adj: Seq<Seq<u32>>, x: int, k: nat, m: nat)
    ensures
        rows_sum(adj, x, k, m) == total(|s: int| row_sum(adj, x, s, m), k),
    decreases k,
{
    if k > 0 {
        lemma_rows_total(adj, x, (k - 1) as nat, m);
    }
}

/// A walk of at most `k` edges, renumbered, is a walk of the renumbered graph.
proof fn lemma_within_renumbered(
    adj1: Seq<Seq<u32>>,
    adj2: Seq<Seq<u32>>,
    p: spec_fn(int) -> int,
    q: spec_fn(int) -> int,
    x: int,
    s: int,
    k: nat,
    t: int,
)
    requires
        renumbered(adj1, adj2, p, q),
        0 <= s < adj1.len(),
        0 <= t < adj1.len(),
    ensures
        within(adj1, x, s, k, t) <==> within(
            adj2,
            moved(p, adj1.len() as int, x),
            p(s),
            k,
            p(t),
        ),
    decreases k,
{
    let n = adj1.len() as int;
    let x2 = moved(p, n, x);
    assert(s != x <==> p(s) != x2) by {
        if 0 <= x < n && p(s) == p(x) {
            assert(q(p(s)) == q(p(x)));
        }
    }
    assert(t != x <==> p(t) != x2) by {
        if 0 <= x < n && p(t) == p(x) {
            assert(q(p(t)) == q(p(x)));
        }
    }
    assert(t == s <==> p(t) == p(s)) by {
        if p(t) == p(s) {
            assert(q(p(t)) == q(p(s)));
        }
    }
    if k > 0 {
        let k1 = (k - 1) as nat;
        lemma_within_renumbered(adj1, adj2, p, q, x, s, k1, t);
        if t != x && exists|u: int| within(adj1, x, s, k1, u) && #[trigger] edge(adj1, u, t) {
            let u = choose|u: int| within(adj1, x, s, k1, u) && #[trigger] edge(adj1, u, t);
            lemma_within_renumbered(adj1, adj2, p, q, x, s, k1, u);
            assert(edge(adj2, p(u), p(t)));
        }
        if p(t) != x2 && exists|u: int| within(adj2, x2, p(s), k1, u) && #[trigger] edge(adj2, u, p(t)) {
            let u2 = choose|u: int| within(adj2, x2, p(s), k1, u) && #[trigger] edge(adj2, u, p(t));
            let u = q(u2);
            assert(p(u) == u2);
            lemma_within_renumbered(adj1, adj2, p, q, x, s, k1, u);
            assert(edge(adj1, u, t));
        }
    }
}

/// Distances, renumbered, are the distances of the renumbered graph.
proof fn lemma_pair_dist_renumbered(
    adj1: Seq<Seq<u32>>,
    adj2: Seq<Seq<u32>>,
    p: spec_fn(int) -> int,
    q: spec_fn(int) -> int,
    x: int,
    s: int,
    t: int,
)
    requires
        renumbered(adj1, adj2, p, q),
        0 <= s < adj1.len(),
        0 <= t < adj1.len(),
    ensures
        reachable(adj1, x, s, t) <==> reachable(adj2, moved(p, adj1.len() as int, x), p(s), p(t)),
        pair_dist(adj1, x, s, t) == pair_dist(adj2, moved(p, adj1.len() as int, x), p(s), p(t)),
{
    let n = adj1.len() as int;
    let x2 = moved(p, n, x);
    assert(s != x <==> p(s) != x2) by {
        if 0 <= x < n && p(s) == p(x) {
            assert(q(p(s)) == q(p(x)));
        }
    }
    assert(t != x <==> p(t) != x2) by {
        if 0 <= x < n && p(t) == p(x) {
            assert(q(p(t)) == q(p(x)));
        }
    }
    if reachable(adj1, x, s, t) {
        let k = choose|k: nat| #[trigger] within(adj1, x, s, k, t);
        lemma_within_renumbered(adj1, adj2, p, q, x, s, k, t);
        assert(within(adj2, x2, p(s), k, p(t)));
        lemma_distance(adj1, x, s, t);
        let d = distance(adj1, x, s, t);
        lemma_within_renumbered(adj1, adj2, p, q, x, s, d, t);
        if d > 0 {
            lemma_within_renumbered(adj1, adj2, p, q, x, s, (d - 1) as nat, t);
        }
        assert(is_dist(adj2, x2, p(s), p(t), d));
        lemma_is_dist_distance(adj2, x2, p(s), p(t), d);
    }
    if reachable(adj2, x2, p(s), p(t)) {
        let k = choose|k: nat| #[trigger] within(adj2, x2, p(s), k, p(t));
        lemma_within_renumbered(adj1, adj2, p, q, x, s, k, t);
        assert(within(adj1, x, s, k, t));
    }
}

/// The sum of the distances over ordered pairs is the same after renumbering.
proof fn lemma_rows_renumbered(
    adj1: Seq<Seq<u32>>,
    adj2: Seq<Seq<u32>>,
    p: spec_fn(int) -> int,
    q: spec_fn(int) -> int,
    x: int,
)
    requires
        renumbered(adj1, adj2, p, q),
    ensures
        rows_sum(adj2, moved(p, adj1.len() as int, x), adj1.len() as nat, adj1.len() as nat)
            == rows_sum(adj1, x, adj1.len() as nat, adj1.len() as nat),
{
    let n = adj1.len() as nat;
    let x2 = moved(p, n as int, x);
    assert(is_renumbering(q, p, n as int));
    assert forall|s: int| 0 <= s < n implies #[trigger] row_sum(adj2, x2, s, n) == row_sum(
        adj1,
        x,
        q(s),
        n,
    ) by {
        let f1 = |t: int| pair_dist(adj1, x, q(s), t);
        let f2 = |t: int| pair_dist(adj2, x2, s, t);
        assert forall|t: int| 0 <= t < n implies #[trigger] f2(t) == f1(q(t)) by {
            lemma_pair_dist_renumbered(adj1, adj2, p, q, x, q(s), q(t));
        }
        lemma_total_ext(f2, |t: int| f1(q(t)), n);
        lemma_total_permute(f1, q, p, n);
        lemma_row_total(adj2, x2, s, n);
        lemma_row_total(adj1, x, q(s), n);
    }
    let r1 = |s: int| row_sum(adj1, x, s, n);
    let r2 = |s: int| row_sum(adj2, x2, s, n);
    lemma_total_ext(r2, |s: int| r1(q(s)), n);
    lemma_total_permute(r1, q, p, n);
    lemma_rows_total(adj2, x2, n, n);
    lemma_rows_total(adj1, x, n, n);
}

/// Renumbering the nodes of an undirected graph keeps its Wiener index, with
/// any node left out or none.
pub proof fn lemma_wiener_renumbered(
    adj1: Seq<Seq<u32>>,
    adj2: Seq<Seq<u32>>,
    p: spec_fn(int) -> int,
    q: spec_fn(int) -> int,
    x: int,
)
    requires
        adj_ok(adj1),
        adj_ok(adj2),
        renumbered(adj1, adj2, p, q),
    ensures
        wiener(adj2, moved(p, adj1.len() as int, x)) == wiener(adj1, x),
{
    let n = adj1.len() as int;
    let x2 = moved(p, n, x);
    assert forall|s: int, t: int| node_in(adj1, x, s) && node_in(adj1, x, t) implies (#[trigger] reachable(
        adj1,
        x,
        s,
        t,
    ) <==> reachable(adj2, x2, p(s), p(t))) by {
        lemma_pair_dist_renumbered(adj1, adj2, p, q, x, s, t);
    }
    if connected(adj1, x) {
        assert forall|s: int, t: int| node_in(adj2, x2, s) && node_in(adj2, x2, t) implies #[trigger] reachable(
            adj2,
            x2,
            s,
            t,
        ) by {
            lemma_pair_dist_renumbered(adj1, adj2, p, q, x, q(s), q(t));
            if 0 <= x < n && q(s) == x {
                assert(p(q(s)) == p(x));
            }
            if 0 <= x < n && q(t) == x {
                assert(p(q(t)) == p(x));
            }
            assert(node_in(adj1, x, q(s)));
            assert(node_in(adj1, x, q(t)));
        }
    }
    if connected(adj2, x2) {
        assert forall|s: int, t: int| node_in(adj1, x, s) && node_in(adj1, x, t) implies #[trigger] reachable(
            adj1,
            x,
            s,
            t,
        ) by {
            lemma_pair_dist_renumbered(adj1, adj2, p, q, x, s, t);
            if 0 <= x < n && p(s) == p(x) {
                assert(q(p(s)) == q(p(x)));
            }
            if 0 <= x < n && p(t) == p(x) {
                assert(q(p(t)) == q(p(x)));
            }
            assert(node_in(adj2, x2, p(s)));
            assert(node_in(adj2, x2, p(t)));
        }
    }
    lemma_rows_renumbered(adj1, adj2, p, q, x);
    lemma_ordered_twice_unordered(adj1, x, n as nat);
    lemma_ordered_twice_unordered(adj2, x2, n as nat);
}

} // verus!

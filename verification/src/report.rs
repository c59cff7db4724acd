//! The table that the command line prints: the vitality of one named node, or
//! of every node sorted by label, refused for a disconnected graph.
use vstd::hash_map::StringHashMap;
use vstd::prelude::*;
use vstd::string::StringSliceAdditionalSpecFns;
use vstd::utf8::*;

use crate::io::Graph;
use crate::laws::law_label_order_is_byte_order;
use crate::paths::connected;
use crate::{closeness, closeness_vitality, closeness_vitality_node, is_connected, sums_fit, Vitality};

verus! {

/// `a` comes before `b` in byte-wise lexicographic order, the order of `str`.
pub open spec fn bytes_lt(a: Seq<u8>, b: Seq<u8>) -> bool
    decreases a.len(),
{
    if a.len() == 0 {
        b.len() > 0
    } else if b.len() == 0 {
        false
    } else if a[0] != b[0] {
        a[0] < b[0]
    } else {
        bytes_lt(a.drop_first(), b.drop_first())
    }
}

/// `a` comes before `b` in `str`'s order: `a` is a proper prefix of `b`, or at
/// the first position where they differ the byte of `a` is the smaller.
pub open spec fn lex_before(a: Seq<u8>, b: Seq<u8>) -> bool {
    ||| (a.len() < b.len() && forall|j: int| 0 <= j < a.len() ==> a[j] == b[j])
    ||| exists|k: int|
        0 <= k < a.len() && k < b.len() && a[k] < b[k] && forall|j: int| 0 <= j < k ==> a[j] == b[j]
}

/// The UTF-8 bytes of the label of node `i`.
pub open spec fn label_bytes(g: &Graph, i: int) -> Seq<u8> {
    encode_utf8(g.label(i))
}

/// The byte order is a strict total order.
pub proof fn lemma_bytes_lt_order(a: Seq<u8>, b: Seq<u8>, c: Seq<u8>)
    ensures
        !bytes_lt(a, a),
        bytes_lt(a, b) ==> !bytes_lt(b, a),
        a != b ==> bytes_lt(a, b) || bytes_lt(b, a),
        bytes_lt(a, b) && bytes_lt(b, c) ==> bytes_lt(a, c),
    decreases a.len(),
{
    if a.len() > 0 && b.len() > 0 && c.len() > 0 {
        lemma_bytes_lt_order(a.drop_first(), b.drop_first(), c.drop_first());
    } else if a.len() > 0 && b.len() > 0 {
        lemma_bytes_lt_order(a.drop_first(), b.drop_first(), b.drop_first());
    } else if a.len() > 0 {
        lemma_bytes_lt_order(a.drop_first(), a.drop_first(), a.drop_first());
    }
    if a.len() > 0 && b.len() > 0 && a[0] == b[0] && a.drop_first() == b.drop_first() {
        assert forall|i: int| 0 <= i < a.len() implies a[i] == b[i] by {
            if i > 0 {
                assert(a[i] == a.drop_first()[i - 1]);
                assert(b[i] == b.drop_first()[i - 1]);
            }
        }
        assert(a =~= b);
    }
    if a.len() == 0 && b.len() == 0 {
        assert(a =~= b);
    }
}

/// Whether `a` comes before `b` in byte-wise lexicographic order.
fn less_than(a: &[u8], b: &[u8]) -> (r: bool)
    ensures
        r == bytes_lt(a@, b@),
{
    let mut i: usize = 0;
    assert(a@.skip(0) =~= a@ && b@.skip(0) =~= b@);
    loop
        invariant
            i <= a@.len(),
            i <= b@.len(),
            bytes_lt(a@, b@) == bytes_lt(a@.skip(i as int), b@.skip(i as int)),
        decreases a@.len() - i,
    {
        if i == a.len() || i == b.len() {
            return i == a.len() && i < b.len();
        }
        if a[i] != b[i] {
            return a[i] < b[i];
        }
        assert(a@.skip(i as int).drop_first() =~= a@.skip(i + 1));
        assert(b@.skip(i as int).drop_first() =~= b@.skip(i + 1));
        i += 1;
    }
}

/// The bytes of a label as `str` gives them.
fn label_slice(g: &Graph, i: usize) -> (b: &[u8])
    requires
        i < g.labels@.len(),
    ensures
        b@ == label_bytes(g, i as int),
{
    g.labels[i].as_str().as_bytes()
}

/// The nodes of `g`, each once, in the order of their labels.
fn nodes_by_label(g: &Graph) -> (ids: Vec<usize>)
    requires
        g.wf(),
    ensures
        ids@.len() == g.labels@.len(),
        ids@.no_duplicates(),
        forall|i: int| 0 <= i < ids@.len() ==> (#[trigger] ids@[i] as int) < g.labels@.len(),
        forall|i: int, j: int|
            0 <= i < j < ids@.len() ==> bytes_lt(
                label_bytes(g, #[trigger] ids@[i] as int),
                label_bytes(g, #[trigger] ids@[j] as int),
            ),
{
    broadcast use encode_utf8_decode_utf8;

    let n = g.n();
    let mut ids: Vec<usize> = Vec::with_capacity(n);
    let mut v: usize = 0;
    while v < n
        invariant
            g.wf(),
            n == g.labels@.len(),
            v <= n,
            ids@.len() == v,
            ids@.no_duplicates(),
            forall|i: int| 0 <= i < ids@.len() ==> (#[trigger] ids@[i] as int) < v,
            forall|i: int, j: int|
                0 <= i < j < ids@.len() ==> bytes_lt(
                    label_bytes(g, #[trigger] ids@[i] as int),
                    label_bytes(g, #[trigger] ids@[j] as int),
                ),
        decreases n - v,
    {
        let key = label_slice(g, v);
        let mut p: usize = 0;
        loop
            invariant
                g.wf(),
                n == g.labels@.len(),
                v < n,
                key@ == label_bytes(g, v as int),
                p <= ids@.len(),
                forall|i: int| 0 <= i < ids@.len() ==> (#[trigger] ids@[i] as int) < v,
                forall|i: int| 0 <= i < p ==> bytes_lt(label_bytes(g, #[trigger] ids@[i] as int), key@),
            ensures
                p <= ids@.len(),
                forall|i: int| 0 <= i < p ==> bytes_lt(label_bytes(g, #[trigger] ids@[i] as int), key@),
                p < ids@.len() ==> !bytes_lt(label_bytes(g, ids@[p as int] as int), key@),
            decreases ids@.len() - p,
        {
            if p == ids.len() {
                break;
            }
            let other = label_slice(g, ids[p]);
            if !less_than(other, key) {
                break;
            }
            p += 1;
        }
        let ghost old_ids = ids@;
        ids.insert(p, v);
        proof {
            assert forall|i: int, j: int|
                0 <= i < j < ids@.len() implies bytes_lt(
                label_bytes(g, #[trigger] ids@[i] as int),
                label_bytes(g, #[trigger] ids@[j] as int),
            ) by {
                if p < old_ids.len() {
                    let q = old_ids[p as int] as int;
                    assert(g.label(q) != g.label(v as int)) by {
                        if g.label(q) == g.label(v as int) {
                            assert(q < v);
                        }
                    }
                    assert(label_bytes(g, q) != label_bytes(g, v as int)) by {
                        if label_bytes(g, q) == label_bytes(g, v as int) {
                            encode_utf8_decode_utf8(g.label(q));
                            encode_utf8_decode_utf8(g.label(v as int));
                        }
                    }
                    lemma_bytes_lt_order(label_bytes(g, v as int), label_bytes(g, q), label_bytes(g, q));
                }
                if j == p {
                    assert(ids@[j] == v);
                    assert(ids@[i] == old_ids[i]);
                } else if i == p {
                    assert(ids@[i] == v);
                    assert(ids@[j] == old_ids[j - 1]);
                    if j - 1 > p {
                        lemma_bytes_lt_order(
                            label_bytes(g, v as int),
                            label_bytes(g, old_ids[p as int] as int),
                            label_bytes(g, old_ids[j - 1] as int),
                        );
                    }
                } else if i < p && j > p {
                    assert(ids@[i] == old_ids[i]);
                    assert(ids@[j] == old_ids[j - 1]);
                    lemma_bytes_lt_order(
                        label_bytes(g, old_ids[i] as int),
                        label_bytes(g, v as int),
                        label_bytes(g, old_ids[j - 1] as int),
                    );
                    if j - 1 > p {
                        lemma_bytes_lt_order(
                            label_bytes(g, v as int),
                            label_bytes(g, old_ids[p as int] as int),
                            label_bytes(g, old_ids[j - 1] as int),
                        );
                    }
                } else if j < p {
                    assert(ids@[i] == old_ids[i] && ids@[j] == old_ids[j]);
                } else {
                    assert(ids@[i] == old_ids[i - 1] && ids@[j] == old_ids[j - 1]);
                }
            }
            assert forall|i: int, j: int| 0 <= i < ids@.len() && 0 <= j < ids@.len() && i != j implies ids@[i]
                != ids@[j] by {
                if i == p as int || j == p as int {
                } else {
                    let oi = if i < p { i } else { i - 1 };
                    let oj = if j < p { j } else { j - 1 };
                    assert(ids@[i] == old_ids[oi] && ids@[j] == old_ids[oj]);
                }
            }
            assert forall|i: int| 0 <= i < ids@.len() implies (#[trigger] ids@[i] as int) < v + 1 by {
                if i < p {
                    assert(ids@[i] == old_ids[i]);
                } else if i > p {
                    assert(ids@[i] == old_ids[i - 1]);
                }
            }
        }
        v += 1;
    }
    ids
}

/// Why no table was produced.
#[derive(Debug, Clone, Copy, PartialEq, Eq)]
pub enum ReportError {
    /// The graph is disconnected, where closeness vitality is not defined.
    Disconnected,
    /// The node asked for is not in the graph.
    UnknownNode,
}

/// The table that the command line prints for `g`: the vitality of the node
/// labelled `node` if one is given, else of every node sorted by label.
///
/// A disconnected graph is refused first: closeness vitality is defined only
/// for a connected graph (networkx yields nan/±inf there, and an edge list
/// cannot represent isolated nodes).
pub fn vitality_report(g: &Graph, node: Option<&str>) -> (res: Result<Vec<(String, Vitality)>, ReportError>)
    requires
        g.wf(),
        sums_fit(g.labels@.len() as int),
    ensures
        !connected(g.adj_view(), -1) ==> res == Err::<Vec<(String, Vitality)>, ReportError>(
            ReportError::Disconnected,
        ),
        connected(g.adj_view(), -1) ==> match node {
            Some(label) => {
                &&& (res is Err <==> !g.has_label(label@))
                &&& res is Err ==> res == Err::<Vec<(String, Vitality)>, ReportError>(
                    ReportError::UnknownNode,
                )
                &&& forall|i: int|
                    0 <= i < g.labels@.len() && #[trigger] g.label(i) == label@ ==> (res matches Ok(rows)
                        && rows@.len() == 1 && rows@[0].0@ == label@ && rows@[0].1 == closeness(
                        g.adj_view(),
                        i,
                    ))
            },
            None => (res matches Ok(rows) && {
                &&& rows@.len() == g.labels@.len()
                &&& forall|r: int|
                    0 <= r < rows@.len() ==> exists|i: int|
                        0 <= i < g.labels@.len() && #[trigger] g.label(i) == (#[trigger] rows@[r]).0@
                            && rows@[r].1 == closeness(g.adj_view(), i)
                &&& forall|r: int, s: int|
                    0 <= r < s < rows@.len() ==> bytes_lt(
                        encode_utf8((#[trigger] rows@[r]).0@),
                        encode_utf8((#[trigger] rows@[s]).0@),
                    )
                &&& forall|r: int, s: int|
                    0 <= r < s < rows@.len() ==> lex_before(
                        encode_utf8((#[trigger] rows@[r]).0@),
                        encode_utf8((#[trigger] rows@[s]).0@),
                    )
            }),
        },
{
    if !is_connected(g) {
        return Err(ReportError::Disconnected);
    }
    match node {
        Some(label) => match closeness_vitality_node(g, label) {
            Some(v) => {
                let row = (label.to_owned(), v);
                let rows = vec![row];
                proof {
                    assert(rows@[0] == row);
                }
                Ok(rows)
            },
            None => Err(ReportError::UnknownNode),
        },
        None => {
            let map: StringHashMap<Vitality> = closeness_vitality(g);
            let ids = nodes_by_label(g);
            let n = g.n();
            let mut rows: Vec<(String, Vitality)> = Vec::with_capacity(n);
            let mut k: usize = 0;
            while k < n
                invariant
                    g.wf(),
                    n == g.labels@.len(),
                    ids@.len() == n,
                    forall|i: int| 0 <= i < ids@.len() ==> (#[trigger] ids@[i] as int) < n,
                    forall|i: int|
                        0 <= i < n ==> map@.contains_key(#[trigger] g.label(i)) && map@[g.label(i)]
                            == closeness(g.adj_view(), i),
                    k <= n,
                    rows@.len() == k,
                    forall|r: int|
                        0 <= r < k ==> (#[trigger] rows@[r]).0@ == g.label(ids@[r] as int)
                            && rows@[r].1 == closeness(g.adj_view(), ids@[r] as int),
                decreases n - k,
            {
                let id = ids[k];
                let label = g.labels[id].clone();
                let v = match map.get(label.as_str()) {
                    Some(v) => *v,
                    None => {
                        proof {
                            assert(map@.contains_key(g.label(id as int)));
                        }
                        Vitality::Undefined
                    },
                };
                rows.push((label, v));
                k += 1;
            }
            proof {
                assert forall|r: int| 0 <= r < rows@.len() implies exists|i: int|
                    0 <= i < g.labels@.len() && #[trigger] g.label(i) == (#[trigger] rows@[r]).0@
                        && rows@[r].1 == closeness(g.adj_view(), i) by {
                    let i = ids@[r] as int;
                    assert(g.label(i) == rows@[r].0@);
                }
                assert forall|r: int, s: int| 0 <= r < s < rows@.len() implies bytes_lt(
                    encode_utf8((#[trigger] rows@[r]).0@),
                    encode_utf8((#[trigger] rows@[s]).0@),
                ) by {
                    assert(rows@[r].0@ == g.label(ids@[r] as int));
                    assert(rows@[s].0@ == g.label(ids@[s] as int));
                }
                assert forall|r: int, s: int| 0 <= r < s < rows@.len() implies lex_before(
                    encode_utf8((#[trigger] rows@[r]).0@),
                    encode_utf8((#[trigger] rows@[s]).0@),
                ) by {
                    law_label_order_is_byte_order(encode_utf8(rows@[r].0@), encode_utf8(rows@[s].0@));
                }
            }
            Ok(rows)
        },
    }
}

} // verus!

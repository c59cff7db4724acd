//! The graph type and the edge-list reader.
use std::collections::HashSet;
use vstd::hash_map::StringHashMap;
use vstd::prelude::*;
use vstd::string::StringSliceAdditionalSpecFns;
use vstd::utf8::*;

use crate::bfs::adj_seq;
use crate::lines::{
    agree, fields_of_line, find, lemma_boundary_at, lemma_boundary_next, lemma_fields_shift,
    lemma_find, lemma_find_idempotent, lemma_find_none, lemma_find_shift, lemma_find_stops,
    is_ascii_ws, line_fields, same_bytes, scan, slice_text, trim_end, trim_start, ws_len_at,
    ws_len_before, ByteClass,
};
use crate::paths::{adj_ok, edge};

verus! {

/// The labels are distinct, and `index` maps each label to its position and
/// holds no other key.
pub open spec fn label_index_ok(labels: Seq<String>, index: Map<Seq<char>, u32>) -> bool {
    &&& index.dom().finite()
    &&& index.len() == labels.len()
    &&& forall|i: int, j: int| 0 <= i < j < labels.len() ==> #[trigger] labels[i]@ != #[trigger] labels[j]@
    &&& forall|i: int|
        0 <= i < labels.len() ==> index.contains_key(#[trigger] labels[i]@) && index[labels[i]@] == i
    &&& forall|k: Seq<char>|
        #[trigger] index.contains_key(k) ==> index[k] < labels.len() && labels[index[k] as int]@ == k
}

/// No adjacency list repeats an entry.
pub open spec fn lists_distinct(adj: Seq<Seq<u32>>) -> bool {
    forall|u: int, i: int, j: int|
        0 <= u < adj.len() && 0 <= i < j < adj[u].len() ==> #[trigger] adj[u][i] != #[trigger] adj[u][j]
}

/// The text of each label.
pub open spec fn label_texts(labels: Seq<String>) -> Seq<Seq<char>> {
    labels.map_values(|l: String| l@)
}

/// Undirected graph with integer-mapped node IDs in first-seen order.
pub struct Graph {
    pub labels: Vec<String>,
    pub index: StringHashMap<u32>,
    /// Adjacency list: neighbors in first-seen insertion order, no self-loops, no duplicates.
    pub adj: Vec<Vec<u32>>,
}

impl Graph {
    /// The adjacency lists as sequences of node ids.
    pub open spec fn adj_view(&self) -> Seq<Seq<u32>> {
        adj_seq(self.adj@)
    }

    /// The label of node `i`.
    pub open spec fn label(&self, i: int) -> Seq<char> {
        self.labels@[i]@
    }

    /// `label` names a node of the graph.
    pub open spec fn has_label(&self, label: Seq<char>) -> bool {
        exists|i: int| 0 <= i < self.labels@.len() && #[trigger] self.label(i) == label
    }

    /// The graph is undirected and simple, its labels are distinct, and `index`
    /// maps each label to its node.
    pub open spec fn wf(&self) -> bool {
        &&& self.labels@.len() == self.adj@.len()
        &&& adj_ok(self.adj_view())
        &&& lists_distinct(self.adj_view())
        &&& label_index_ok(self.labels@, self.index@)
    }

    /// Number of nodes.
    pub fn n(&self) -> (n: usize)
        ensures
            n == self.labels@.len(),
    {
        self.labels.len()
    }
}

/// Why an edge list was refused.
#[derive(Debug, Clone, Copy, PartialEq, Eq)]
pub enum ParseError {
    /// The data line with this number (counting from 1) holds a single label.
    SingleLabel { line: usize },
}

/// The text of the token held in bytes `i..j`.
pub open spec fn token(b: Seq<u8>, i: int, j: int) -> Seq<char> {
    decode_utf8(b.subrange(i, j))
}

/// The edges that the lines from byte `pos` on give, in order, the first of
/// those lines being line number `lineno`; or the number of the first line
/// that holds a single label.
///
/// Each line (the bytes up to the next `\n`) is cut at its first `#` and
/// trimmed of whitespace; a line left empty is skipped; otherwise its first
/// two ASCII-whitespace-separated tokens name an edge, further tokens being
/// ignored, and an edge from a label to itself is dropped.
pub open spec fn edges_from(b: Seq<u8>, pos: int, lineno: nat) -> Result<
    Seq<(Seq<char>, Seq<char>)>,
    nat,
>
    decreases b.len() + 1 - pos,
    via edges_from_decreases
{
    if pos < 0 || pos >= b.len() {
        Ok(seq![])
    } else {
        let e = find(b, pos, b.len() as int, ByteClass::Newline);
        let f = line_fields(b, pos, e);
        let rest = edges_from(b, e + 1, lineno + 1);
        if f.1 == f.0 {
            rest
        } else if f.3 == f.0 {
            Err(lineno)
        } else if b.subrange(f.1, f.2) == b.subrange(f.3, f.4) {
            rest
        } else {
            match rest {
                Ok(r) => Ok(seq![(token(b, f.1, f.2), token(b, f.3, f.4))] + r),
                Err(k) => Err(k),
            }
        }
    }
}

#[via_fn]
proof fn edges_from_decreases(b: Seq<u8>, pos: int, lineno: nat) {
    if 0 <= pos < b.len() {
        lemma_find(b, pos, b.len() as int, ByteClass::Newline);
    }
}

/// The edges of an edge-list text, or the number of its first line that holds
/// a single label.
pub open spec fn edge_list(text: &str) -> Result<Seq<(Seq<char>, Seq<char>)>, nat> {
    edges_from(text.spec_bytes(), 0, 1)
}

/// `labels` with `t` appended unless it is there already.
pub open spec fn add_label(labels: Seq<Seq<char>>, t: Seq<char>) -> Seq<Seq<char>> {
    if labels.contains(t) {
        labels
    } else {
        labels.push(t)
    }
}

/// The labels of `edges` in first-seen order.
pub open spec fn labels_of(edges: Seq<(Seq<char>, Seq<char>)>) -> Seq<Seq<char>>
    decreases edges.len(),
{
    if edges.len() == 0 {
        seq![]
    } else {
        let l = labels_of(edges.drop_last());
        add_label(add_label(l, edges.last().0), edges.last().1)
    }
}

/// The position of `t` among `labels`.
pub open spec fn label_pos(labels: Seq<Seq<char>>, t: Seq<char>) -> int {
    choose|i: int| 0 <= i < labels.len() && labels[i] == t
}

/// `adj` with `v` appended to the neighbours of `u` unless it is there already.
pub open spec fn link(adj: Seq<Seq<u32>>, u: int, v: int) -> Seq<Seq<u32>> {
    if adj[u].contains(v as u32) {
        adj
    } else {
        adj.update(u, adj[u].push(v as u32))
    }
}

/// The adjacency lists that the first `k` of `edges` give over `labels`: each
/// edge adds each of its ends to the other's list unless it is there already.
pub open spec fn adjacency(edges: Seq<(Seq<char>, Seq<char>)>, labels: Seq<Seq<char>>, k: nat) -> Seq<
    Seq<u32>,
>
    decreases k,
{
    if k == 0 {
        Seq::new(labels.len(), |i: int| Seq::<u32>::empty())
    } else {
        let a = adjacency(edges, labels, (k - 1) as nat);
        let u = label_pos(labels, edges[k - 1].0);
        let v = label_pos(labels, edges[k - 1].1);
        link(link(a, u, v), v, u)
    }
}

/// Node `i` is an end of one of the first `m` edges.
pub open spec fn mentioned(raw: Seq<(u32, u32)>, i: int, m: int) -> bool {
    exists|k: int| 0 <= k < m && ((#[trigger] raw[k]).0 == i || raw[k].1 == i)
}

/// The edges found before a point, followed by what the rest gives.
pub open spec fn after(acc: Seq<(Seq<char>, Seq<char>)>, rest: Result<Seq<(Seq<char>, Seq<char>)>, nat>) -> Result<
    Seq<(Seq<char>, Seq<char>)>,
    nat,
> {
    match rest {
        Ok(r) => Ok(acc + r),
        Err(k) => Err(k),
    }
}

fn intern(labels: &mut Vec<String>, index: &mut StringHashMap<u32>, s: &str) -> (id: u32)
    requires
        label_index_ok(old(labels)@, old(index)@),
        old(labels)@.len() < u32::MAX,
    ensures
        label_index_ok(final(labels)@, final(index)@),
        label_texts(final(labels)@) == add_label(label_texts(old(labels)@), s@),
        id < final(labels)@.len(),
        final(labels)@[id as int]@ == s@,
        final(labels)@.len() > old(labels)@.len() ==> id == old(labels)@.len(),
        forall|i: int| 0 <= i < old(labels)@.len() ==> #[trigger] final(labels)@[i]@ == old(labels)@[i]@,
{
    match index.get(s) {
        Some(id) => {
            let id = *id;
            proof {
                assert(label_texts(labels@)[id as int] == s@);
            }
            return id;
        },
        None => {},
    }
    let id = labels.len() as u32;
    proof {
        if label_texts(labels@).contains(s@) {
            let i = choose|i: int| 0 <= i < labels@.len() && label_texts(labels@)[i] == s@;
            assert(index@.contains_key(labels@[i]@));
        }
    }
    labels.push(s.to_owned());
    index.insert(s.to_owned(), id);
    proof {
        assert(label_texts(labels@) =~= label_texts(old(labels)@).push(s@));
    }
    id
}

/// What a sequence holds after a push.
proof fn lemma_push_contains_all(s: Seq<u32>, v: u32)
    ensures
        forall|w: u32| #[trigger] s.push(v).contains(w) <==> (s.contains(w) || w == v),
{
    assert forall|w: u32| #[trigger] s.push(v).contains(w) <==> (s.contains(w) || w == v) by {
        if s.contains(w) {
            let i = choose|i: int| 0 <= i < s.len() && s[i] == w;
            assert(s.push(v)[i] == w);
        }
        if w == v {
            assert(s.push(v)[s.len() as int] == w);
        }
        if s.push(v).contains(w) {
            let i = choose|i: int| 0 <= i < s.len() + 1 && s.push(v)[i] == w;
            if i < s.len() {
                assert(s[i] == w);
            }
        }
    }
}

/// The position of a label among distinct labels.
proof fn lemma_label_pos(labels: Seq<String>, i: int)
    requires
        forall|a: int, c: int| 0 <= a < c < labels.len() ==> #[trigger] labels[a]@ != #[trigger] labels[c]@,
        0 <= i < labels.len(),
    ensures
        label_pos(label_texts(labels), labels[i]@) == i,
{
    let l = label_texts(labels);
    assert(l[i] == labels[i]@);
    let j = label_pos(l, labels[i]@);
    assert(0 <= j < l.len() && l[j] == labels[i]@);
    if j < i {
        assert(labels[j]@ != labels[i]@);
    } else if i < j {
        assert(labels[i]@ != labels[j]@);
    }
}

/// Linking both ends of an edge keeps the lists those of a simple undirected graph.
proof fn lemma_link_pair(a: Seq<Seq<u32>>, u: int, v: int)
    requires
        adj_ok(a),
        lists_distinct(a),
        0 <= u < a.len(),
        0 <= v < a.len(),
        u != v,
    ensures
        adj_ok(link(link(a, u, v), v, u)),
        lists_distinct(link(link(a, u, v), v, u)),
        link(link(a, u, v), v, u).len() == a.len(),
        edge(link(link(a, u, v), v, u), u, v),
        forall|x: int, y: int| #[trigger] edge(a, x, y) ==> edge(link(link(a, u, v), v, u), x, y),
        forall|x: int, y: int|
            #[trigger] edge(link(link(a, u, v), v, u), x, y) ==> edge(a, x, y) || (x == u && y == v) || (
            x == v && y == u),
{
    let a1 = link(a, u, v);
    let a2 = link(a1, v, u);
    assert(a1[u].contains(v as u32)) by {
        if !a[u].contains(v as u32) {
            assert(a1[u][a[u].len() as int] == v as u32);
        }
    }
    assert(a2[v].contains(u as u32)) by {
        if !a1[v].contains(u as u32) {
            assert(a2[v][a1[v].len() as int] == u as u32);
        }
    }
    assert(a2[u].contains(v as u32)) by {
        let i = choose|i: int| 0 <= i < a1[u].len() && a1[u][i] == v as u32;
        assert(a2[u][i] == v as u32);
    }
    assert forall|x: int, y: int| #[trigger] edge(a, x, y) implies edge(a2, x, y) by {
        let i = choose|i: int| 0 <= i < a[x].len() && a[x][i] == y as u32;
        assert(a1[x][i] == y as u32);
        assert(a2[x][i] == y as u32);
    }
    assert forall|x: int, y: int| #[trigger] edge(a2, x, y) implies edge(a, x, y) || (x == u && y == v)
        || (x == v && y == u) by {
        let i = choose|i: int| 0 <= i < a2[x].len() && a2[x][i] == y as u32;
        if x == v && i == a1[v].len() && !a1[v].contains(u as u32) {
        } else {
            assert(i < a1[x].len());
            assert(a1[x][i] == y as u32);
            if x == u && i == a[u].len() && !a[u].contains(v as u32) {
            } else {
                assert(a[x][i] == y as u32);
            }
        }
    }
    assert forall|x: int, i: int|
        0 <= x < a2.len() && 0 <= i < a2[x].len() implies (#[trigger] a2[x][i] as int) < a2.len()
        && a2[x][i] as int != x by {
        assert(edge(a2, x, a2[x][i] as int) || true);
        if x == v && i == a1[v].len() && !a1[v].contains(u as u32) {
        } else {
            assert(a1[x][i] == a2[x][i]);
            if x == u && i == a[u].len() && !a[u].contains(v as u32) {
            } else {
                assert(a[x][i] == a1[x][i]);
            }
        }
    }
    assert forall|x: int, y: int| #[trigger] edge(a2, x, y) implies edge(a2, y, x) by {
        if edge(a, x, y) {
            assert(edge(a, y, x));
        }
    }
    assert forall|x: int, i: int, j: int|
        0 <= x < a2.len() && 0 <= i < j < a2[x].len() implies #[trigger] a2[x][i] != #[trigger] a2[x][j] by {
        if x == v && j == a1[v].len() && !a1[v].contains(u as u32) {
            assert(a1[v][i] == a2[v][i]);
        } else if x == u && j == a[u].len() && !a[u].contains(v as u32) {
            assert(a2[x][i] == a1[x][i]);
            assert(a1[u][i] == a[u][i]);
        } else {
            assert(a2[x][i] == a1[x][i]);
            assert(a2[x][j] == a1[x][j]);
            if x == u && j == a[u].len() {
            } else {
                assert(a1[x][i] == a[x][i] && a1[x][j] == a[x][j]);
            }
        }
    }
}

/// Parse an undirected edge list from an in-memory string.
///
/// Matches `nx.read_edgelist` / `nx.Graph`: a `#` starts a comment anywhere in
/// a line; lines left blank are skipped. Each data line needs at least two
/// whitespace-separated tokens; extras are ignored. Self-loops are dropped.
/// Duplicate edges collapse to a simple graph in first-seen order.
pub fn read_edgelist_str(input: &str) -> (res: Result<Graph, ParseError>)
    requires
        input.spec_bytes().len() < u32::MAX,
    ensures
        match res {
            Ok(g) => parsed_from(g, input),
            Err(ParseError::SingleLabel { line }) => edge_list(input) == Err::<
                Seq<(Seq<char>, Seq<char>)>,
                nat,
            >(line as nat),
        },
{
    broadcast use encode_utf8_valid_utf8, encode_utf8_decode_utf8;

    let bytes = input.as_bytes();
    let ghost b = input.spec_bytes();
    let len = bytes.len();
    let mut labels: Vec<String> = Vec::new();
    let mut index: StringHashMap<u32> = StringHashMap::new();
    let mut raw_edges: Vec<(u32, u32)> = Vec::new();
    let ghost mut acc: Seq<(Seq<char>, Seq<char>)> = seq![];
    let mut pos: usize = 0;
    let mut lineno: usize = 1;
    proof {
        assert(valid_utf8(b));
        lemma_boundary_at(b, 0);
        assert(label_texts(labels@) =~= labels_of(acc));
        assert(edge_list(input) == after(acc, edges_from(b, 0, 1))) by {
            match edges_from(b, 0, 1) {
                Ok(r) => {
                    assert(acc + r =~= r);
                },
                Err(_) => {},
            }
        }
    }
    while pos < len
        invariant
            bytes@ == b,
            b == input.spec_bytes(),
            valid_utf8(b),
            len == b.len(),
            len < u32::MAX,
            pos <= len + 1,
            lineno <= pos + 1,
            pos < len ==> is_char_boundary(b, pos as int),
            edge_list(input) == after(acc, edges_from(b, pos as int, lineno as nat)),
            label_index_ok(labels@, index@),
            label_texts(labels@) == labels_of(acc),
            labels@.len() <= pos,
            labels@.len() <= len,
            raw_edges@.len() == acc.len(),
            forall|k: int|
                0 <= k < acc.len() ==> (#[trigger] raw_edges@[k]).0 < labels@.len() && raw_edges@[k].1
                    < labels@.len() && labels@[raw_edges@[k].0 as int]@ == acc[k].0
                    && labels@[raw_edges@[k].1 as int]@ == acc[k].1 && acc[k].0 != acc[k].1,
            forall|i: int| 0 <= i < labels@.len() ==> #[trigger] mentioned(raw_edges@, i, acc.len() as int),
        decreases len + 1 - pos,
    {
        let e = scan(bytes, pos, len, ByteClass::Newline);
        proof {
            lemma_find(b, pos as int, len as int, ByteClass::Newline);
        }
        let (te, a0, b0, a1, b1) = fields_of_line(bytes, pos, e);
        let ghost rest = edges_from(b, e + 1, (lineno + 1) as nat);
        proof {
            assert(line_fields(b, pos as int, e as int) == (te as int, a0 as int, b0 as int, a1 as int, b1 as int));
        }
        if a0 == te {
            proof {
                assert(edges_from(b, pos as int, lineno as nat) == rest);
            }
        } else if a1 == te {
            proof {
                assert(edges_from(b, pos as int, lineno as nat) == Err::<Seq<(Seq<char>, Seq<char>)>, nat>(lineno as nat));
            }
            return Err(ParseError::SingleLabel { line: lineno });
        } else if same_bytes(bytes, a0, b0, a1, b1) {
            proof {
                assert(edges_from(b, pos as int, lineno as nat) == rest);
            }
        } else {
            let u_str = slice_text(input, a0, b0);
            let v_str = slice_text(input, a1, b1);
            proof {
                encode_utf8_decode_utf8(u_str@);
                encode_utf8_decode_utf8(v_str@);
                assert(u_str@ == token(b, a0 as int, b0 as int));
                assert(v_str@ == token(b, a1 as int, b1 as int));
                if u_str@ == v_str@ {
                    assert(u_str.spec_bytes() == v_str.spec_bytes());
                }
            }
            let ghost n0 = labels@.len();
            let ghost labels0 = labels@;
            assert(label_texts(labels@).len() == labels@.len());
            let u = intern(&mut labels, &mut index, u_str);
            let ghost labels1 = labels@;
            assert(label_texts(labels@).len() == labels@.len());
            assert(labels@.len() <= n0 + 1);
            let v = intern(&mut labels, &mut index, v_str);
            proof {
                assert(label_texts(labels@).len() == labels@.len());
                assert(labels@.len() >= labels1.len() >= labels0.len());
                assert forall|i: int| 0 <= i < labels0.len() implies #[trigger] labels@[i]@ == labels0[i]@ by {
                    assert(label_texts(labels0)[i] == labels0[i]@);
                    assert(label_texts(labels1)[i] == labels1[i]@);
                    assert(label_texts(labels@)[i] == labels@[i]@);
                }
                assert(label_texts(labels1)[u as int] == labels1[u as int]@);
                assert(label_texts(labels@)[u as int] == labels@[u as int]@);
            }
            let ghost raw0 = raw_edges@;
            assert(label_texts(labels@).len() == labels@.len());
            assert(labels@.len() <= n0 + 2);
            raw_edges.push((u, v));
            proof {
                let pair = (u_str@, v_str@);
                assert(edges_from(b, pos as int, lineno as nat) == match rest {
                    Ok(r) => Ok(seq![pair] + r),
                    Err(k) => Err::<Seq<(Seq<char>, Seq<char>)>, nat>(k),
                });
                let old_acc = acc;
                acc = acc.push(pair);
                assert(raw_edges@[old_acc.len() as int] == (u, v));
                assert forall|i: int| 0 <= i < labels@.len() implies #[trigger] mentioned(
                    raw_edges@,
                    i,
                    acc.len() as int,
                ) by {
                    if i < n0 {
                        assert(mentioned(raw0, i, old_acc.len() as int));
                        let k = choose|k: int|
                            0 <= k < old_acc.len() && ((#[trigger] raw0[k]).0 == i || raw0[k].1 == i);
                        assert(raw_edges@[k] == raw0[k]);
                    } else {
                        assert(raw_edges@[old_acc.len() as int].0 == i || raw_edges@[old_acc.len() as int].1 == i);
                    }
                }
                assert(acc.drop_last() =~= old_acc);
                match rest {
                    Ok(r) => {
                        assert(old_acc + (seq![pair] + r) =~= acc + r);
                    },
                    Err(_) => {},
                }
            }
        }
        proof {
            if e + 1 < len {
                assert(b[e as int] == 0x0au8);
                lemma_boundary_at(b, e as int);
                lemma_boundary_next(b, e as int);
            }
        }
        pos = e + 1;
        lineno += 1;
    }
    proof {
        assert(edges_from(b, pos as int, lineno as nat) == Ok::<Seq<(Seq<char>, Seq<char>)>, nat>(seq![]));
        assert(acc + seq![] =~= acc);
    }
    let ghost es = acc;
    let ghost ls = labels_of(es);
    let n = labels.len();
    let mut adj: Vec<Vec<u32>> = Vec::with_capacity(n);
    let mut seen: Vec<HashSet<u32>> = Vec::with_capacity(n);
    let mut i: usize = 0;
    while i < n
        invariant
            i <= n,
            adj@.len() == i,
            seen@.len() == i,
            forall|j: int| 0 <= j < i ==> (#[trigger] adj@[j])@ == Seq::<u32>::empty(),
            forall|j: int| 0 <= j < i ==> (#[trigger] seen@[j])@ == Set::<u32>::empty(),
        decreases n - i,
    {
        adj.push(Vec::new());
        seen.push(HashSet::new());
        i += 1;
    }
    let mut k: usize = 0;
    proof {
        assert(adj_seq(adj@) =~= adjacency(es, ls, 0));
    }
    while k < raw_edges.len()
        invariant
            n == labels@.len(),
            n < u32::MAX,
            label_index_ok(labels@, index@),
            label_texts(labels@) == ls,
            raw_edges@.len() == es.len(),
            forall|j: int|
                0 <= j < es.len() ==> (#[trigger] raw_edges@[j]).0 < labels@.len() && raw_edges@[j].1
                    < labels@.len() && labels@[raw_edges@[j].0 as int]@ == es[j].0
                    && labels@[raw_edges@[j].1 as int]@ == es[j].1 && es[j].0 != es[j].1,
            k <= es.len(),
            adj@.len() == n,
            seen@.len() == n,
            adj_seq(adj@) == adjacency(es, ls, k as nat),
            adj_ok(adj_seq(adj@)),
            lists_distinct(adj_seq(adj@)),
            forall|u: int, w: u32| 0 <= u < n ==> (#[trigger] seen@[u]@.contains(w) <==> adj@[u]@.contains(w)),
            forall|i: int| 0 <= i < n ==> #[trigger] mentioned(raw_edges@, i, es.len() as int),
            forall|i: int|
                0 <= i < n && #[trigger] mentioned(raw_edges@, i, k as int) ==> adj@[i]@.len() > 0,
        decreases es.len() - k,
    {
        broadcast use vstd::std_specs::hash::group_hash_axioms;

        let (u, v) = raw_edges[k];
        let ghost a = adj_seq(adj@);
        proof {
            lemma_label_pos(labels@, u as int);
            lemma_label_pos(labels@, v as int);
            assert(u != v);
            lemma_link_pair(a, u as int, v as int);
        }
        let ghost seen0 = seen@;
        let ghost adj0 = adj@;
        if seen[u as usize].insert(v) {
            adj[u as usize].push(v);
        }
        proof {
            assert(adj_seq(adj@) =~= link(a, u as int, v as int));
            lemma_push_contains_all(adj0[u as int]@, v);
            assert forall|x: int, w: u32| 0 <= x < n implies (#[trigger] seen@[x]@.contains(w) <==> adj@[x]@.contains(w)) by {
                if x == u as int {
                    assert(seen0[x]@.contains(w) <==> adj0[x]@.contains(w));
                } else {
                    assert(seen@[x] == seen0[x]);
                    assert(adj@[x] == adj0[x]);
                    assert(seen0[x]@.contains(w) <==> adj0[x]@.contains(w));
                }
            }
        }
        let ghost a1 = adj_seq(adj@);
        let ghost seen1 = seen@;
        let ghost adj1 = adj@;
        if seen[v as usize].insert(u) {
            adj[v as usize].push(u);
        }
        proof {
            assert(adj_seq(adj@) =~= link(a1, v as int, u as int));
            assert forall|i: int|
                0 <= i < n && #[trigger] mentioned(raw_edges@, i, k + 1) implies adj@[i]@.len() > 0 by {
                assert(adj_seq(adj@)[i] == adj@[i]@);
                assert(adj_seq(adj0)[i] == adj0[i]@);
                let j = choose|j: int| 0 <= j < k + 1 && ((#[trigger] raw_edges@[j]).0 == i || raw_edges@[j].1 == i);
                if j == k {
                    assert(edge(adj_seq(adj@), u as int, v as int));
                    assert(edge(adj_seq(adj@), v as int, u as int));
                } else {
                    assert(mentioned(raw_edges@, i, k as int));
                    assert(adj0[i]@.len() > 0);
                }
            }
            lemma_push_contains_all(adj1[v as int]@, u);
            assert forall|x: int, w: u32| 0 <= x < n implies (#[trigger] seen@[x]@.contains(w) <==> adj@[x]@.contains(w)) by {
                if x == v as int {
                    assert(seen1[x]@.contains(w) <==> adj1[x]@.contains(w));
                } else {
                    assert(seen@[x] == seen1[x]);
                    assert(adj@[x] == adj1[x]);
                    assert(seen1[x]@.contains(w) <==> adj1[x]@.contains(w));
                }
            }
        }
        k += 1;
    }
    let g = Graph { labels, index, adj };
    proof {
        assert(g.labels@.len() == g.adj@.len());
        assert forall|i: int| 0 <= i < g.adj@.len() implies (#[trigger] g.adj@[i])@.len() > 0 by {
            assert(mentioned(raw_edges@, i, es.len() as int));
        }
    }
    Ok(g)
}

/// The edges that the lines from a position give depend only on the bytes from
/// there on.
pub proof fn lemma_edges_shift(b1: Seq<u8>, b2: Seq<u8>, d: int, p: int, ln: nat)
    requires
        0 <= p,
        0 <= p + d,
        b1.len() == b2.len() + d,
        forall|j: int| p <= j < b2.len() ==> #[trigger] b1[j + d] == b2[j],
    ensures
        edges_from(b1, p + d, ln) == edges_from(b2, p, ln),
    decreases b2.len() + 1 - p,
{
    let len2 = b2.len() as int;
    if p < len2 {
        assert(agree(b1, b2, d, p, len2));
        lemma_find_shift(b1, b2, d, p, len2, ByteClass::Newline);
        lemma_find(b2, p, len2, ByteClass::Newline);
        let e = find(b2, p, len2, ByteClass::Newline);
        assert(agree(b1, b2, d, p, e));
        lemma_fields_shift(b1, b2, d, p, e);
        let f = line_fields(b2, p, e);
        assert forall|m: int| 0 <= m < f.2 - f.1 implies b1.subrange(f.1 + d, f.2 + d)[m] == b2.subrange(
            f.1,
            f.2,
        )[m] by {
            assert(b1[(f.1 + m) + d] == b2[f.1 + m]);
            assert(f.1 + d + m == (f.1 + m) + d);
        }
        assert forall|m: int| 0 <= m < f.4 - f.3 implies b1.subrange(f.3 + d, f.4 + d)[m] == b2.subrange(
            f.3,
            f.4,
        )[m] by {
            assert(b1[(f.3 + m) + d] == b2[f.3 + m]);
            assert(f.3 + d + m == (f.3 + m) + d);
        }
        assert(b1.subrange(f.1 + d, f.2 + d) =~= b2.subrange(f.1, f.2));
        assert(b1.subrange(f.3 + d, f.4 + d) =~= b2.subrange(f.3, f.4));
        lemma_edges_shift(b1, b2, d, e + 1, ln + 1);
        assert(e + 1 + d == e + d + 1);
    }
}

/// Texts that agree up to the start of a line, and give the same edges from
/// there on, give the same edges.
proof fn lemma_edges_prefix(b1: Seq<u8>, b2: Seq<u8>, p: int, pos: int, ln: nat)
    requires
        0 <= pos <= p,
        p <= b1.len(),
        p <= b2.len(),
        forall|j: int| 0 <= j < p ==> #[trigger] b1[j] == b2[j],
        p == 0 || b1[p - 1] == 0x0au8,
        forall|k: nat| #[trigger] edges_from(b1, p, k) == edges_from(b2, p, k),
    ensures
        edges_from(b1, pos, ln) == edges_from(b2, pos, ln),
    decreases p - pos,
{
    if pos < p {
        assert(b1[p - 1] == b2[p - 1]);
        lemma_find_stops(b1, pos, p - 1, b1.len() as int, ByteClass::Newline);
        lemma_find_stops(b2, pos, p - 1, b2.len() as int, ByteClass::Newline);
        assert(agree(b1, b2, 0, pos, p));
        lemma_find_shift(b1, b2, 0, pos, p, ByteClass::Newline);
        lemma_find(b2, pos, p, ByteClass::Newline);
        let e = find(b2, pos, p, ByteClass::Newline);
        assert(e < p);
        assert(agree(b1, b2, 0, pos, e));
        lemma_fields_shift(b1, b2, 0, pos, e);
        let f = line_fields(b2, pos, e);
        assert(b1.subrange(f.1, f.2) =~= b2.subrange(f.1, f.2));
        assert(b1.subrange(f.3, f.4) =~= b2.subrange(f.3, f.4));
        lemma_edges_prefix(b1, b2, p, e + 1, ln + 1);
    }
}

/// The line that starts at `p` ends at `q`: no byte of `p..q` is a line feed,
/// and the text ends at `q` or holds a line feed there.
proof fn lemma_line_end(b: Seq<u8>, p: int, q: int)
    requires
        0 <= p <= q <= b.len(),
        forall|j: int| p <= j < q ==> #[trigger] b[j] != 0x0au8,
        q == b.len() || b[q] == 0x0au8,
    ensures
        find(b, p, b.len() as int, ByteClass::Newline) == q,
{
    lemma_find_none(b, p, q, ByteClass::Newline);
    if q < b.len() {
        lemma_find_stops(b, p, q, b.len() as int, ByteClass::Newline);
    }
}

/// Appending `#` and a comment to the line that starts at `|a|` changes none
/// of the edges that the lines from there on give.
proof fn lemma_commented_line(a: Seq<u8>, line: Seq<u8>, c: Seq<u8>, r: Seq<u8>, k: nat)
    requires
        forall|j: int| 0 <= j < line.len() ==> #[trigger] line[j] != 0x0au8,
        forall|j: int| 0 <= j < c.len() ==> #[trigger] c[j] != 0x0au8,
        r.len() == 0 || r[0] == 0x0au8,
    ensures
        edges_from(a + line + seq![0x23u8] + c + r, a.len() as int, k) == edges_from(
            a + line + r,
            a.len() as int,
            k,
        ),
{
    let b1 = a + line + r;
    let b2 = a + line + seq![0x23u8] + c + r;
    let p = a.len() as int;
    let q = p + line.len();
    let d: int = 1 + c.len() as int;
    assert(b2.len() == b1.len() + d);
    assert forall|j: int| 0 <= j < q implies #[trigger] b1[j] == b2[j] by {
        if j < p {
            assert(b1[j] == a[j] && b2[j] == a[j]);
        } else {
            assert(b1[j] == line[j - p] && b2[j] == line[j - p]);
        }
    }
    assert(b2[q] == 0x23u8);
    assert forall|j: int| p <= j < q + d implies #[trigger] b2[j] != 0x0au8 by {
        if j < q {
            assert(b2[j] == line[j - p]);
        } else if j > q {
            assert(b2[j] == c[j - q - 1]);
        }
    }
    if q + d < b2.len() {
        assert(b2[q + d] == r[0]);
    }
    lemma_line_end(b2, p, q + d);
    let e2 = q + d;
    // the comment is cut off at the same place in both texts
    lemma_find_stops(b2, p, q, e2, ByteClass::Hash);
    assert(agree(b1, b2, 0, p, q));
    lemma_find_shift(b1, b2, 0, p, q, ByteClass::Hash);
    let h = find(b2, p, q, ByteClass::Hash);
    lemma_find(b2, p, q, ByteClass::Hash);
    assert(agree(b1, b2, 0, p, h));
    lemma_fields_shift(b1, b2, 0, p, h);
    lemma_find_idempotent(b2, p, e2, ByteClass::Hash);
    assert(line_fields(b2, p, e2) == line_fields(b2, p, h));
    let f = line_fields(b2, p, e2);
    assert(b1.subrange(f.1, f.2) =~= b2.subrange(f.1, f.2));
    assert(b1.subrange(f.3, f.4) =~= b2.subrange(f.3, f.4));
    // the lines after it are the same bytes, moved by `d`
    assert forall|j: int| q + 1 <= j < b1.len() implies #[trigger] b2[j + d] == b1[j] by {
        assert(b1[j] == r[j - q]);
        assert(b2[j + d] == r[j - q]);
    }
    lemma_edges_shift(b2, b1, d, q + 1, k + 1);
    assert(q + 1 + d == e2 + 1);
    if p < b1.len() {
        assert forall|j: int| p <= j < q implies #[trigger] b1[j] != 0x0au8 by {
            assert(b1[j] == line[j - p]);
        }
        if q < b1.len() {
            assert(b1[q] == r[0]);
        }
        lemma_line_end(b1, p, q);
        lemma_find_idempotent(b1, p, q, ByteClass::Hash);
        assert(line_fields(b1, p, q) == line_fields(b1, p, h));
    } else {
        assert(h == p);
        assert(f.1 == f.0);
    }
}

/// Appending `#` and a comment to one line of a text leaves the edges that the
/// text gives unchanged.
pub(crate) proof fn lemma_comment_appended(a: Seq<u8>, line: Seq<u8>, c: Seq<u8>, r: Seq<u8>)
    requires
        a.len() == 0 || a.last() == 0x0au8,
        forall|j: int| 0 <= j < line.len() ==> #[trigger] line[j] != 0x0au8,
        forall|j: int| 0 <= j < c.len() ==> #[trigger] c[j] != 0x0au8,
        r.len() == 0 || r[0] == 0x0au8,
    ensures
        edges_from(a + line + seq![0x23u8] + c + r, 0, 1) == edges_from(a + line + r, 0, 1),
{
    let b1 = a + line + seq![0x23u8] + c + r;
    let b2 = a + line + r;
    let p = a.len() as int;
    assert forall|k: nat| #[trigger] edges_from(b1, p, k) == edges_from(b2, p, k) by {
        lemma_commented_line(a, line, c, r, k);
    }
    assert forall|j: int| 0 <= j < p implies #[trigger] b1[j] == b2[j] by {
        assert(b1[j] == a[j] && b2[j] == a[j]);
    }
    if p > 0 {
        assert(b1[p - 1] == a.last());
    }
    lemma_edges_prefix(b1, b2, p, 0, 1);
}

/// Some edge of `edges` joins `l1` and `l2`, in either direction.
pub open spec fn joined(edges: Seq<(Seq<char>, Seq<char>)>, l1: Seq<char>, l2: Seq<char>) -> bool {
    exists|k: int|
        #![trigger edges[k]]
        0 <= k < edges.len() && ((edges[k].0 == l1 && edges[k].1 == l2) || (edges[k].0 == l2
            && edges[k].1 == l1))
}

/// `l` is an end of some edge of `edges`.
pub open spec fn is_end(edges: Seq<(Seq<char>, Seq<char>)>, l: Seq<char>) -> bool {
    exists|k: int| #![trigger edges[k]] 0 <= k < edges.len() && (edges[k].0 == l || edges[k].1 == l)
}

/// The labels of the edges are exactly their ends.
proof fn lemma_labels_of_ends(edges: Seq<(Seq<char>, Seq<char>)>)
    ensures
        forall|l: Seq<char>| #[trigger] labels_of(edges).contains(l) <==> is_end(edges, l),
    decreases edges.len(),
{
    if edges.len() > 0 {
        let e = edges.drop_last();
        lemma_labels_of_ends(e);
        let l0 = labels_of(e);
        let l1 = add_label(l0, edges.last().0);
        let l2 = add_label(l1, edges.last().1);
        assert forall|s: Seq<Seq<char>>, t: Seq<char>, l: Seq<char>|
            #[trigger] add_label(s, t).contains(l) <==> (s.contains(l) || l == t) by {
            if !s.contains(t) {
                if s.push(t).contains(l) {
                    let i = choose|i: int| 0 <= i < s.len() + 1 && s.push(t)[i] == l;
                    if i < s.len() {
                        assert(s[i] == l);
                    }
                }
                if s.contains(l) {
                    let i = choose|i: int| 0 <= i < s.len() && s[i] == l;
                    assert(s.push(t)[i] == l);
                }
                if l == t {
                    assert(s.push(t)[s.len() as int] == l);
                }
            }
        }
        assert forall|l: Seq<char>| #[trigger] labels_of(edges).contains(l) <==> is_end(edges, l) by {
            assert(labels_of(edges) == l2);
            assert(l2.contains(l) <==> (l0.contains(l) || l == edges.last().0 || l == edges.last().1));
            if is_end(e, l) {
                let k = choose|k: int| #![trigger e[k]] 0 <= k < e.len() && (e[k].0 == l || e[k].1 == l);
                assert(e[k] == edges[k]);
                assert(is_end(edges, l));
            }
            if is_end(edges, l) {
                let k = choose|k: int| #![trigger edges[k]] 0 <= k < edges.len() && (edges[k].0 == l || edges[k].1 == l);
                if k < e.len() {
                    assert(edges[k] == e[k]);
                    assert(is_end(e, l));
                }
            }
            if l == edges.last().0 || l == edges.last().1 {
                assert(edges[edges.len() - 1] == edges.last());
            }
        }
    }
}

/// Linking `u` to `v` adds exactly the edge from `u` to `v`.
proof fn lemma_link_edge(a: Seq<Seq<u32>>, u: int, v: int)
    requires
        a.len() < u32::MAX,
        0 <= u < a.len(),
        0 <= v < a.len(),
    ensures
        link(a, u, v).len() == a.len(),
        forall|x: int, y: int|
            #[trigger] edge(link(a, u, v), x, y) <==> (edge(a, x, y) || (x == u && y == v)),
{
    let b = link(a, u, v);
    lemma_push_contains_all(a[u], v as u32);
    assert forall|x: int, y: int| #[trigger] edge(b, x, y) <==> (edge(a, x, y) || (x == u && y == v)) by {
        if 0 <= y < a.len() {
            assert((y as u32 == v as u32) <==> y == v);
        }
    }
}

/// The adjacency lists that edges give over labels that hold all their ends:
/// an edge joins two nodes exactly when some edge joins their labels.
proof fn lemma_adjacency_edges(edges: Seq<(Seq<char>, Seq<char>)>, labels: Seq<Seq<char>>, m: nat)
    requires
        m <= edges.len(),
        labels.len() < u32::MAX,
        forall|i: int, j: int| 0 <= i < j < labels.len() ==> #[trigger] labels[i] != #[trigger] labels[j],
        forall|k: int| 0 <= k < m ==> labels.contains(#[trigger] edges[k].0) && labels.contains(edges[k].1),
    ensures
        adjacency(edges, labels, m).len() == labels.len(),
        forall|x: int, y: int|
            0 <= x < labels.len() && 0 <= y < labels.len() ==> (#[trigger] edge(
                adjacency(edges, labels, m),
                x,
                y,
            ) <==> joined(edges.take(m as int), labels[x], labels[y])),
    decreases m,
{
    let t = edges.take(m as int);
    if m == 0 {
        assert forall|x: int, y: int|
            0 <= x < labels.len() && 0 <= y < labels.len() implies !#[trigger] edge(
            adjacency(edges, labels, m),
            x,
            y,
        ) by {
            assert(adjacency(edges, labels, m)[x] =~= Seq::<u32>::empty());
        }
    } else {
        let k = (m - 1) as nat;
        lemma_adjacency_edges(edges, labels, k);
        let a = adjacency(edges, labels, k);
        let e = edges[k as int];
        assert(labels.contains(edges[k as int].0) && labels.contains(edges[k as int].1));
        let u = label_pos(labels, e.0);
        let v = label_pos(labels, e.1);
        assert(0 <= u < labels.len() && labels[u] == e.0);
        assert(0 <= v < labels.len() && labels[v] == e.1);
        assert forall|x: int| 0 <= x < labels.len() && #[trigger] labels[x] == labels[u] implies x == u by {
            if x < u {
                assert(labels[x] != labels[u]);
            } else if u < x {
                assert(labels[u] != labels[x]);
            }
        }
        assert forall|x: int| 0 <= x < labels.len() && #[trigger] labels[x] == labels[v] implies x == v by {
            if x < v {
                assert(labels[x] != labels[v]);
            } else if v < x {
                assert(labels[v] != labels[x]);
            }
        }
        lemma_link_edge(a, u, v);
        lemma_link_edge(link(a, u, v), v, u);
        let t0 = edges.take(k as int);
        assert forall|x: int, y: int|
            0 <= x < labels.len() && 0 <= y < labels.len() implies (#[trigger] edge(
            adjacency(edges, labels, m),
            x,
            y,
        ) <==> joined(t, labels[x], labels[y])) by {
            assert(adjacency(edges, labels, m) == link(link(a, u, v), v, u));
            if joined(t0, labels[x], labels[y]) {
                let j = choose|j: int|
                    #![trigger t0[j]]
                    0 <= j < t0.len() && ((t0[j].0 == labels[x] && t0[j].1 == labels[y]) || (t0[j].0
                        == labels[y] && t0[j].1 == labels[x]));
                assert(t[j] == t0[j]);
            }
            if joined(t, labels[x], labels[y]) {
                let j = choose|j: int|
                    #![trigger t[j]]
                    0 <= j < t.len() && ((t[j].0 == labels[x] && t[j].1 == labels[y]) || (t[j].0
                        == labels[y] && t[j].1 == labels[x]));
                if j < k {
                    assert(t0[j] == t[j]);
                    assert(joined(t0, labels[x], labels[y]));
                } else {
                    assert(t[j] == e);
                }
            }
            if (x == u && y == v) || (x == v && y == u) {
                assert(t[k as int] == e);
            }
        }
    }
}

/// `g` is the graph that the reader builds from `text`.
pub open spec fn parsed_from(g: Graph, text: &str) -> bool {
    &&& edge_list(text) is Ok
    &&& g.wf()
    &&& label_texts(g.labels@) == labels_of(edge_list(text)->Ok_0)
    &&& g.adj_view() == adjacency(
        edge_list(text)->Ok_0,
        labels_of(edge_list(text)->Ok_0),
        edge_list(text)->Ok_0.len(),
    )
    &&& forall|u: int| 0 <= u < g.adj@.len() ==> (#[trigger] g.adj@[u])@.len() > 0
}

/// In a graph that the reader built, a label names a node exactly when it is
/// an end of an edge of the text, and two nodes are adjacent exactly when an
/// edge of the text joins their labels.
pub proof fn lemma_parsed_edges(g: Graph, text: &str)
    requires
        parsed_from(g, text),
    ensures
        forall|l: Seq<char>| #[trigger] g.index@.contains_key(l) <==> is_end(edge_list(text)->Ok_0, l),
        forall|l1: Seq<char>, l2: Seq<char>|
            g.index@.contains_key(l1) && g.index@.contains_key(l2) ==> (#[trigger] edge(
                g.adj_view(),
                g.index@[l1] as int,
                g.index@[l2] as int,
            ) <==> joined(edge_list(text)->Ok_0, l1, l2)),
{
    let es = edge_list(text)->Ok_0;
    let ls = labels_of(es);
    lemma_labels_of_ends(es);
    assert(ls.len() == g.labels@.len());
    assert forall|k: int| 0 <= k < es.len() implies ls.contains(#[trigger] es[k].0) && ls.contains(es[k].1) by {
        assert(is_end(es, es[k].0));
        assert(is_end(es, es[k].1));
    }
    assert forall|i: int, j: int| 0 <= i < j < ls.len() implies #[trigger] ls[i] != #[trigger] ls[j] by {
        assert(ls[i] == g.labels@[i]@);
        assert(ls[j] == g.labels@[j]@);
    }
    lemma_adjacency_edges(es, ls, es.len());
    assert(es.take(es.len() as int) =~= es);
    assert forall|l: Seq<char>| #[trigger] g.index@.contains_key(l) <==> is_end(es, l) by {
        if g.index@.contains_key(l) {
            let i = g.index@[l] as int;
            assert(ls[i] == g.labels@[i]@);
        }
        if ls.contains(l) {
            let i = choose|i: int| 0 <= i < ls.len() && ls[i] == l;
            assert(ls[i] == g.labels@[i]@);
        }
    }
    assert forall|l1: Seq<char>, l2: Seq<char>|
        g.index@.contains_key(l1) && g.index@.contains_key(l2) implies (#[trigger] edge(
        g.adj_view(),
        g.index@[l1] as int,
        g.index@[l2] as int,
    ) <==> joined(es, l1, l2)) by {
        let i = g.index@[l1] as int;
        let j = g.index@[l2] as int;
        assert(ls[i] == g.labels@[i]@);
        assert(ls[j] == g.labels@[j]@);
    }
}

/// What the line `b[s..e]` gives: `Ok` with its edge, or with nothing for a
/// line without a token or with an edge from a label to itself; `Err` for a
/// line with a single label.
pub open spec fn line_result(b: Seq<u8>, s: int, e: int) -> Result<Seq<(Seq<char>, Seq<char>)>, ()> {
    let f = line_fields(b, s, e);
    if f.1 == f.0 {
        Ok(seq![])
    } else if f.3 == f.0 {
        Err(())
    } else if b.subrange(f.1, f.2) == b.subrange(f.3, f.4) {
        Ok(seq![])
    } else {
        Ok(seq![(token(b, f.1, f.2), token(b, f.3, f.4))])
    }
}

/// The result of a line, line number `lineno`, followed by what the lines
/// after it give.
pub open spec fn then_rest(
    line: Result<Seq<(Seq<char>, Seq<char>)>, ()>,
    lineno: nat,
    rest: Result<Seq<(Seq<char>, Seq<char>)>, nat>,
) -> Result<Seq<(Seq<char>, Seq<char>)>, nat> {
    match line {
        Ok(x) => after(x, rest),
        Err(_) => Err(lineno),
    }
}

/// Reading from the start of a line is reading that line, then the rest.
proof fn lemma_edges_unfold(b: Seq<u8>, p: int, ln: nat)
    requires
        0 <= p <= b.len(),
    ensures
        edges_from(b, p, ln) == then_rest(
            line_result(b, p, find(b, p, b.len() as int, ByteClass::Newline)),
            ln,
            edges_from(b, find(b, p, b.len() as int, ByteClass::Newline) + 1, ln + 1),
        ),
{
    let e = find(b, p, b.len() as int, ByteClass::Newline);
    let rest = edges_from(b, e + 1, ln + 1);
    let f = line_fields(b, p, e);
    if p == b.len() {
        assert(trim_start(b, p, p) == p);
        assert(trim_end(b, p, p) == p);
        assert(seq![] + seq![] =~= Seq::<(Seq<char>, Seq<char>)>::empty());
    } else if f.1 != f.0 && f.3 != f.0 && b.subrange(f.1, f.2) != b.subrange(f.3, f.4) {
        match rest {
            Ok(r) => {
                assert(seq![(token(b, f.1, f.2), token(b, f.3, f.4))] + r =~= seq![
                    (token(b, f.1, f.2), token(b, f.3, f.4)),
                ] + r);
            },
            Err(_) => {},
        }
    } else if f.1 == f.0 || (f.3 != f.0 && b.subrange(f.1, f.2) == b.subrange(f.3, f.4)) {
        match rest {
            Ok(r) => {
                assert(seq![] + r =~= r);
            },
            Err(_) => {},
        }
    }
}

/// Joining over two edge lists one after the other.
proof fn lemma_joined_concat(x: Seq<(Seq<char>, Seq<char>)>, y: Seq<(Seq<char>, Seq<char>)>)
    ensures
        forall|l1: Seq<char>, l2: Seq<char>|
            #[trigger] joined(x + y, l1, l2) <==> (joined(x, l1, l2) || joined(y, l1, l2)),
{
    assert forall|l1: Seq<char>, l2: Seq<char>|
        #[trigger] joined(x + y, l1, l2) <==> (joined(x, l1, l2) || joined(y, l1, l2)) by {
        let z = x + y;
        if joined(z, l1, l2) {
            let k = choose|k: int|
                #![trigger z[k]]
                0 <= k < z.len() && ((z[k].0 == l1 && z[k].1 == l2) || (z[k].0 == l2 && z[k].1 == l1));
            if k < x.len() {
                assert(z[k] == x[k]);
            } else {
                assert(z[k] == y[k - x.len()]);
            }
        }
        if joined(x, l1, l2) {
            let k = choose|k: int|
                #![trigger x[k]]
                0 <= k < x.len() && ((x[k].0 == l1 && x[k].1 == l2) || (x[k].0 == l2 && x[k].1 == l1));
            assert(z[k] == x[k]);
        }
        if joined(y, l1, l2) {
            let k = choose|k: int|
                #![trigger y[k]]
                0 <= k < y.len() && ((y[k].0 == l1 && y[k].1 == l2) || (y[k].0 == l2 && y[k].1 == l1));
            assert(z[k + x.len()] == y[k]);
        }
    }
}

/// Both results give edges, or neither does; and when both do, they join the
/// same pairs of labels.
pub open spec fn same_joins(
    r1: Result<Seq<(Seq<char>, Seq<char>)>, nat>,
    r2: Result<Seq<(Seq<char>, Seq<char>)>, nat>,
) -> bool {
    &&& (r1 is Ok <==> r2 is Ok)
    &&& (r1 is Ok && r2 is Ok) ==> forall|l1: Seq<char>, l2: Seq<char>|
        joined(r1->Ok_0, l1, l2) <==> joined(r2->Ok_0, l1, l2)
}

/// Putting the same edges in front keeps two results joining the same pairs.
proof fn lemma_same_joins_after(
    x: Seq<(Seq<char>, Seq<char>)>,
    r1: Result<Seq<(Seq<char>, Seq<char>)>, nat>,
    r2: Result<Seq<(Seq<char>, Seq<char>)>, nat>,
)
    requires
        same_joins(r1, r2),
    ensures
        same_joins(after(x, r1), after(x, r2)),
{
    if r1 is Ok && r2 is Ok {
        lemma_joined_concat(x, r1->Ok_0);
        lemma_joined_concat(x, r2->Ok_0);
    }
}

/// Texts that agree up to the start of a line, and from there on give edges
/// together and join the same pairs, do so from the start.
proof fn lemma_same_joins_prefix(b1: Seq<u8>, b2: Seq<u8>, p: int, pos: int, ln: nat)
    requires
        0 <= pos <= p,
        p <= b1.len(),
        p <= b2.len(),
        forall|j: int| 0 <= j < p ==> #[trigger] b1[j] == b2[j],
        p == 0 || b1[p - 1] == 0x0au8,
        forall|k: nat| #[trigger] same_joins(edges_from(b1, p, k), edges_from(b2, p, k)),
    ensures
        same_joins(edges_from(b1, pos, ln), edges_from(b2, pos, ln)),
    decreases p - pos,
{
    assert(same_joins(edges_from(b1, p, ln), edges_from(b2, p, ln)));
    if pos < p {
        assert(b1[p - 1] == b2[p - 1]);
        lemma_find_stops(b1, pos, p - 1, b1.len() as int, ByteClass::Newline);
        lemma_find_stops(b2, pos, p - 1, b2.len() as int, ByteClass::Newline);
        assert(agree(b1, b2, 0, pos, p));
        lemma_find_shift(b1, b2, 0, pos, p, ByteClass::Newline);
        lemma_find(b2, pos, p, ByteClass::Newline);
        let e = find(b2, pos, p, ByteClass::Newline);
        assert(agree(b1, b2, 0, pos, e));
        lemma_fields_shift(b1, b2, 0, pos, e);
        let f = line_fields(b2, pos, e);
        assert(b1.subrange(f.1, f.2) =~= b2.subrange(f.1, f.2));
        assert(b1.subrange(f.3, f.4) =~= b2.subrange(f.3, f.4));
        lemma_same_joins_prefix(b1, b2, p, e + 1, ln + 1);
        lemma_edges_unfold(b1, pos, ln);
        lemma_edges_unfold(b2, pos, ln);
        assert(line_result(b1, pos, e) == line_result(b2, pos, e));
        match line_result(b2, pos, e) {
            Ok(x) => lemma_same_joins_after(x, edges_from(b1, e + 1, ln + 1), edges_from(b2, e + 1, ln + 1)),
            Err(_) => {},
        }
    }
}

/// What a line gives depends only on its bytes.
proof fn lemma_line_result_shift(b1: Seq<u8>, b2: Seq<u8>, d: int, s: int, e: int)
    requires
        agree(b1, b2, d, s, e),
    ensures
        line_result(b1, s + d, e + d) == line_result(b2, s, e),
{
    lemma_fields_shift(b1, b2, d, s, e);
    let f = line_fields(b2, s, e);
    assert forall|m: int| 0 <= m < f.2 - f.1 implies b1.subrange(f.1 + d, f.2 + d)[m] == b2.subrange(
        f.1,
        f.2,
    )[m] by {
        assert(b1[(f.1 + m) + d] == b2[f.1 + m]);
        assert(f.1 + d + m == (f.1 + m) + d);
    }
    assert forall|m: int| 0 <= m < f.4 - f.3 implies b1.subrange(f.3 + d, f.4 + d)[m] == b2.subrange(
        f.3,
        f.4,
    )[m] by {
        assert(b1[(f.3 + m) + d] == b2[f.3 + m]);
        assert(f.3 + d + m == (f.3 + m) + d);
    }
    assert(b1.subrange(f.1 + d, f.2 + d) =~= b2.subrange(f.1, f.2));
    assert(b1.subrange(f.3 + d, f.4 + d) =~= b2.subrange(f.3, f.4));
}

/// Where the lines end when two neighbouring lines `l1` and `l2` are swapped,
/// and that each line gives the same in either place.
proof fn lemma_swap_facts(a: Seq<u8>, l1: Seq<u8>, l2: Seq<u8>, r: Seq<u8>)
    requires
        forall|j: int| 0 <= j < l1.len() ==> #[trigger] l1[j] != 0x0au8,
        forall|j: int| 0 <= j < l2.len() ==> #[trigger] l2[j] != 0x0au8,
        r.len() == 0 || r[0] == 0x0au8,
    ensures
        ({
            let t1 = a + l1 + seq![0x0au8] + l2 + r;
            let t2 = a + l2 + seq![0x0au8] + l1 + r;
            let p = a.len() as int;
            let n1 = l1.len() as int;
            let n2 = l2.len() as int;
            let z = p + n1 + n2 + 1;
            &&& t1.len() == t2.len() == z + r.len()
            &&& find(t1, p, t1.len() as int, ByteClass::Newline) == p + n1
            &&& find(t1, p + n1 + 1, t1.len() as int, ByteClass::Newline) == z
            &&& find(t2, p, t2.len() as int, ByteClass::Newline) == p + n2
            &&& find(t2, p + n2 + 1, t2.len() as int, ByteClass::Newline) == z
            &&& line_result(t2, p + n2 + 1, z) == line_result(t1, p, p + n1)
            &&& line_result(t1, p + n1 + 1, z) == line_result(t2, p, p + n2)
            &&& forall|j: int| z <= j < t1.len() ==> #[trigger] t1[j] == t2[j]
        }),
{
    let t1 = a + l1 + seq![0x0au8] + l2 + r;
    let t2 = a + l2 + seq![0x0au8] + l1 + r;
    let p = a.len() as int;
    let n1 = l1.len() as int;
    let n2 = l2.len() as int;
    let z = p + n1 + n2 + 1;
    assert forall|j: int| z <= j < t1.len() implies #[trigger] t1[j] == t2[j] by {
        assert(t1[j] == r[j - z] && t2[j] == r[j - z]);
    }
    assert forall|j: int| p <= j < p + n1 implies #[trigger] t1[j] != 0x0au8 by {
        assert(t1[j] == l1[j - p]);
    }
    assert(t1[p + n1] == 0x0au8);
    lemma_line_end(t1, p, p + n1);
    assert forall|j: int| p + n1 + 1 <= j < z implies #[trigger] t1[j] != 0x0au8 by {
        assert(t1[j] == l2[j - p - n1 - 1]);
    }
    if z < t1.len() {
        assert(t1[z] == r[0]);
    }
    lemma_line_end(t1, p + n1 + 1, z);
    assert forall|j: int| p <= j < p + n2 implies #[trigger] t2[j] != 0x0au8 by {
        assert(t2[j] == l2[j - p]);
    }
    assert(t2[p + n2] == 0x0au8);
    lemma_line_end(t2, p, p + n2);
    assert forall|j: int| p + n2 + 1 <= j < z implies #[trigger] t2[j] != 0x0au8 by {
        assert(t2[j] == l1[j - p - n2 - 1]);
    }
    if z < t2.len() {
        assert(t2[z] == r[0]);
    }
    lemma_line_end(t2, p + n2 + 1, z);
    assert forall|j: int| p <= j < p + n1 implies #[trigger] t2[j + (n2 + 1)] == t1[j] by {
        assert(t1[j] == l1[j - p]);
        assert(t2[j + (n2 + 1)] == l1[j - p]);
    }
    assert(agree(t2, t1, n2 + 1, p, p + n1));
    lemma_line_result_shift(t2, t1, n2 + 1, p, p + n1);
    assert forall|j: int| p <= j < p + n2 implies #[trigger] t1[j + (n1 + 1)] == t2[j] by {
        assert(t2[j] == l2[j - p]);
        assert(t1[j + (n1 + 1)] == l2[j - p]);
    }
    assert(agree(t1, t2, n1 + 1, p, p + n2));
    lemma_line_result_shift(t1, t2, n1 + 1, p, p + n2);
    assert(p + n1 + (n2 + 1) == z && p + n2 + (n1 + 1) == z);
}

/// From the first of two swapped lines on, the two texts give edges together
/// and join the same pairs.
proof fn lemma_swap_at(a: Seq<u8>, l1: Seq<u8>, l2: Seq<u8>, r: Seq<u8>, k: nat)
    requires
        forall|j: int| 0 <= j < l1.len() ==> #[trigger] l1[j] != 0x0au8,
        forall|j: int| 0 <= j < l2.len() ==> #[trigger] l2[j] != 0x0au8,
        r.len() == 0 || r[0] == 0x0au8,
    ensures
        same_joins(
            edges_from(a + l1 + seq![0x0au8] + l2 + r, a.len() as int, k),
            edges_from(a + l2 + seq![0x0au8] + l1 + r, a.len() as int, k),
        ),
{
    let t1 = a + l1 + seq![0x0au8] + l2 + r;
    let t2 = a + l2 + seq![0x0au8] + l1 + r;
    let p = a.len() as int;
    let n1 = l1.len() as int;
    let n2 = l2.len() as int;
    let z = p + n1 + n2 + 1;
    lemma_swap_facts(a, l1, l2, r);
    let o1 = line_result(t1, p, p + n1);
    let o2 = line_result(t2, p, p + n2);
    lemma_edges_shift(t1, t2, 0, z + 1, k + 2);
    let rest = edges_from(t1, z + 1, k + 2);
    lemma_edges_unfold(t1, p, k);
    lemma_edges_unfold(t1, p + n1 + 1, k + 1);
    lemma_edges_unfold(t2, p, k);
    lemma_edges_unfold(t2, p + n2 + 1, k + 1);
    assert(edges_from(t1, p, k) == then_rest(o1, k, then_rest(o2, k + 1, rest)));
    assert(edges_from(t2, p, k) == then_rest(o2, k, then_rest(o1, k + 1, rest)));
    match (o1, o2, rest) {
        (Ok(x1), Ok(x2), Ok(y)) => {
            lemma_joined_concat(x1, x2 + y);
            lemma_joined_concat(x2, y);
            lemma_joined_concat(x2, x1 + y);
            lemma_joined_concat(x1, y);
        },
        _ => {},
    }
}

/// Swapping two neighbouring lines, `l1` and `l2`, that follow the text `a`
/// and are followed by the text `r`, keeps a text giving edges or not, and
/// keeps the pairs of labels that its edges join.
pub(crate) proof fn lemma_lines_swapped(a: Seq<u8>, l1: Seq<u8>, l2: Seq<u8>, r: Seq<u8>)
    requires
        a.len() == 0 || a.last() == 0x0au8,
        forall|j: int| 0 <= j < l1.len() ==> #[trigger] l1[j] != 0x0au8,
        forall|j: int| 0 <= j < l2.len() ==> #[trigger] l2[j] != 0x0au8,
        r.len() == 0 || r[0] == 0x0au8,
    ensures
        same_joins(
            edges_from(a + l1 + seq![0x0au8] + l2 + r, 0, 1),
            edges_from(a + l2 + seq![0x0au8] + l1 + r, 0, 1),
        ),
{
    let t1 = a + l1 + seq![0x0au8] + l2 + r;
    let t2 = a + l2 + seq![0x0au8] + l1 + r;
    let p = a.len() as int;
    assert forall|k: nat| #[trigger] same_joins(edges_from(t1, p, k), edges_from(t2, p, k)) by {
        lemma_swap_at(a, l1, l2, r, k);
    }
    assert forall|j: int| 0 <= j < p implies #[trigger] t1[j] == t2[j] by {
        assert(t1[j] == a[j] && t2[j] == a[j]);
    }
    if p > 0 {
        assert(t1[p - 1] == a.last());
    }
    lemma_same_joins_prefix(t1, t2, p, 0, 1);
}

/// `x` can stand as a label on its own: it is not empty, holds no ASCII
/// whitespace and no `#`, and neither starts nor ends with a whitespace
/// character.
pub open spec fn is_bare_label(x: Seq<u8>) -> bool {
    &&& x.len() > 0
    &&& forall|j: int| 0 <= j < x.len() ==> !is_ascii_ws(#[trigger] x[j]) && x[j] != 0x23u8
    &&& ws_len_at(x, 0, x.len() as int) == 0
    &&& ws_len_before(x, 0, x.len() as int) == 0
}

/// The line `x y`, two bare labels and a space, tab, form feed or carriage
/// return between them, at `p..e`: its tokens are exactly `x` and `y`.
proof fn lemma_bare_line(b: Seq<u8>, p: int, x: Seq<u8>, y: Seq<u8>)
    requires
        is_bare_label(x),
        is_bare_label(y),
        0 <= p,
        p + x.len() + 1 + y.len() <= b.len(),
        forall|j: int| 0 <= j < x.len() ==> #[trigger] b[p + j] == x[j],
        b[p + x.len()] == 0x20u8 || b[p + x.len()] == 0x09u8 || b[p + x.len()] == 0x0cu8
            || b[p + x.len()] == 0x0du8,
        forall|j: int| 0 <= j < y.len() ==> #[trigger] b[p + x.len() + 1 + j] == y[j],
    ensures
        ({
            let e = p + x.len() + 1 + y.len();
            let f = line_fields(b, p, e);
            &&& f == (e, p, p + x.len(), p + x.len() + 1, e)
            &&& b.subrange(f.1, f.2) == x
            &&& b.subrange(f.3, f.4) == y
            &&& forall|j: int| p <= j < e ==> #[trigger] b[j] != 0x0au8
        }),
{
    let nx = x.len() as int;
    let ny = y.len() as int;
    let m = p + nx;
    let e = m + 1 + ny;
    assert(b[p] == x[0]) by {
        assert(b[p + 0] == x[0]);
    }
    assert(b[e - 1] == y[ny - 1]) by {
        assert(b[p + nx + 1 + (ny - 1)] == y[ny - 1]);
    }
    assert forall|j: int| p <= j < e implies #[trigger] b[j] != 0x0au8 && b[j] != 0x23u8 by {
        if j < m {
            assert(b[p + (j - p)] == x[j - p]);
        } else if j > m {
            assert(b[p + nx + 1 + (j - m - 1)] == y[j - m - 1]);
        }
    }
    lemma_find_none(b, p, e, ByteClass::Hash);
    // nothing to trim at the start
    if nx >= 2 {
        assert(b[p + 1] == x[1]);
    }
    if nx >= 3 {
        assert(b[p + 2] == x[2]);
    }
    assert(b[m] == 0x20u8 || b[m] == 0x09u8 || b[m] == 0x0cu8 || b[m] == 0x0du8);
    assert(ws_len_at(b, p, e) == 0);
    assert(trim_start(b, p, e) == p);
    // nothing to trim at the end
    if ny >= 2 {
        assert(b[e - 2] == y[ny - 2]) by {
            assert(b[p + nx + 1 + (ny - 2)] == y[ny - 2]);
        }
    }
    if ny >= 3 {
        assert(b[e - 3] == y[ny - 3]) by {
            assert(b[p + nx + 1 + (ny - 3)] == y[ny - 3]);
        }
    }
    assert(ny == 2 ==> e - 3 == m);
    assert(ny == 1 ==> e - 2 == m);
    assert(ws_len_before(b, p, e) == 0);
    assert(trim_end(b, p, e) == e);
    // the tokens
    assert forall|j: int| p <= j < m implies !ByteClass::Space.holds(#[trigger] b[j]) by {
        assert(b[p + (j - p)] == x[j - p]);
    }
    assert(ByteClass::NonSpace.holds(b[p]));
    assert(find(b, p, e, ByteClass::NonSpace) == p);
    lemma_find_none(b, p, m, ByteClass::Space);
    lemma_find_stops(b, p, m, e, ByteClass::Space);
    assert(b[m + 1] == y[0]) by {
        assert(b[p + nx + 1 + 0] == y[0]);
    }
    assert(find(b, m + 1, e, ByteClass::NonSpace) == m + 1);
    assert(find(b, m, e, ByteClass::NonSpace) == m + 1);
    assert forall|j: int| m + 1 <= j < e implies !ByteClass::Space.holds(#[trigger] b[j]) by {
        assert(b[p + nx + 1 + (j - m - 1)] == y[j - m - 1]);
    }
    lemma_find_none(b, m + 1, e, ByteClass::Space);
    assert(b.subrange(p, m) =~= x) by {
        assert forall|j: int| 0 <= j < nx implies b.subrange(p, m)[j] == x[j] by {
            assert(b[p + j] == x[j]);
        }
    }
    assert(b.subrange(m + 1, e) =~= y) by {
        assert forall|j: int| 0 <= j < ny implies b.subrange(m + 1, e)[j] == y[j] by {
            assert(b[p + nx + 1 + j] == y[j]);
        }
    }
}

/// Joining over a single edge does not depend on the order of its labels.
proof fn lemma_joined_one_swapped(x: Seq<char>, y: Seq<char>)
    ensures
        forall|l1: Seq<char>, l2: Seq<char>|
            #[trigger] joined(seq![(x, y)], l1, l2) <==> joined(seq![(y, x)], l1, l2),
{
    assert forall|l1: Seq<char>, l2: Seq<char>|
        #[trigger] joined(seq![(x, y)], l1, l2) <==> joined(seq![(y, x)], l1, l2) by {
        let s1 = seq![(x, y)];
        let s2 = seq![(y, x)];
        if joined(s1, l1, l2) {
            let k = choose|k: int|
                #![trigger s1[k]]
                0 <= k < s1.len() && ((s1[k].0 == l1 && s1[k].1 == l2) || (s1[k].0 == l2 && s1[k].1 == l1));
            assert(s2[0] == (y, x));
        }
        if joined(s2, l1, l2) {
            let k = choose|k: int|
                #![trigger s2[k]]
                0 <= k < s2.len() && ((s2[k].0 == l1 && s2[k].1 == l2) || (s2[k].0 == l2 && s2[k].1 == l1));
            assert(s1[0] == (x, y));
        }
    }
}

/// Swapping the two labels of the line `x y` at the start `|a|` of a line
/// keeps the texts giving edges together, joining the same pairs, from there on.
proof fn lemma_labels_swapped_at(a: Seq<u8>, x: Seq<u8>, y: Seq<u8>, r: Seq<u8>, k: nat)
    requires
        is_bare_label(x),
        is_bare_label(y),
        r.len() == 0 || r[0] == 0x0au8,
    ensures
        same_joins(
            edges_from(a + x + seq![0x20u8] + y + r, a.len() as int, k),
            edges_from(a + y + seq![0x20u8] + x + r, a.len() as int, k),
        ),
{
    let t1 = a + x + seq![0x20u8] + y + r;
    let t2 = a + y + seq![0x20u8] + x + r;
    let p = a.len() as int;
    let e = p + x.len() + 1 + y.len();
    assert(t1.len() == t2.len());
    assert forall|j: int| 0 <= j < x.len() implies #[trigger] t1[p + j] == x[j] by {}
    assert forall|j: int| 0 <= j < y.len() implies #[trigger] t1[p + x.len() + 1 + j] == y[j] by {}
    assert(t1[p + x.len()] == 0x20u8);
    lemma_bare_line(t1, p, x, y);
    assert forall|j: int| 0 <= j < y.len() implies #[trigger] t2[p + j] == y[j] by {}
    assert forall|j: int| 0 <= j < x.len() implies #[trigger] t2[p + y.len() + 1 + j] == x[j] by {}
    assert(t2[p + y.len()] == 0x20u8);
    lemma_bare_line(t2, p, y, x);
    assert(p + y.len() + 1 + x.len() == e);
    if e < t1.len() {
        assert(t1[e] == r[0]);
        assert(t2[e] == r[0]);
    }
    lemma_line_end(t1, p, e);
    lemma_line_end(t2, p, e);
    assert forall|j: int| e <= j < t1.len() implies #[trigger] t1[j] == t2[j] by {
        assert(t1[j] == r[j - e] && t2[j] == r[j - e]);
    }
    lemma_edges_shift(t1, t2, 0, e + 1, k + 1);
    lemma_edges_unfold(t1, p, k);
    lemma_edges_unfold(t2, p, k);
    let rest = edges_from(t1, e + 1, k + 1);
    let tx = decode_utf8(x);
    let ty = decode_utf8(y);
    if x == y {
        assert(line_result(t1, p, e) == line_result(t2, p, e));
    } else {
        assert(line_result(t1, p, e) == Ok::<Seq<(Seq<char>, Seq<char>)>, ()>(seq![(tx, ty)]));
        assert(line_result(t2, p, e) == Ok::<Seq<(Seq<char>, Seq<char>)>, ()>(seq![(ty, tx)]));
        match rest {
            Ok(z) => {
                lemma_joined_concat(seq![(tx, ty)], z);
                lemma_joined_concat(seq![(ty, tx)], z);
                lemma_joined_one_swapped(tx, ty);
            },
            Err(_) => {},
        }
    }
}

/// Swapping the two labels of a line `x y` keeps a text giving edges or not,
/// and keeps the pairs of labels that its edges join.
pub(crate) proof fn lemma_labels_swapped(a: Seq<u8>, x: Seq<u8>, y: Seq<u8>, r: Seq<u8>)
    requires
        a.len() == 0 || a.last() == 0x0au8,
        is_bare_label(x),
        is_bare_label(y),
        r.len() == 0 || r[0] == 0x0au8,
    ensures
        same_joins(
            edges_from(a + x + seq![0x20u8] + y + r, 0, 1),
            edges_from(a + y + seq![0x20u8] + x + r, 0, 1),
        ),
{
    let t1 = a + x + seq![0x20u8] + y + r;
    let t2 = a + y + seq![0x20u8] + x + r;
    let p = a.len() as int;
    assert forall|k: nat| #[trigger] same_joins(edges_from(t1, p, k), edges_from(t2, p, k)) by {
        lemma_labels_swapped_at(a, x, y, r, k);
    }
    assert forall|j: int| 0 <= j < p implies #[trigger] t1[j] == t2[j] by {
        assert(t1[j] == a[j] && t2[j] == a[j]);
    }
    if p > 0 {
        assert(t1[p - 1] == a.last());
    }
    lemma_same_joins_prefix(t1, t2, p, 0, 1);
}

/// A line of two labels `x` and `y` separated by one ASCII whitespace byte
/// gives exactly the edge joining them, the labels keeping every other byte.
pub(crate) proof fn lemma_one_edge_line(x: Seq<u8>, y: Seq<u8>, sep: u8)
    requires
        x.len() > 0,
        y.len() > 0,
        forall|j: int|
            0 <= j < x.len() ==> #[trigger] x[j] != 0x20u8 && x[j] != 0x09u8 && x[j] != 0x0au8 && x[j]
                != 0x0cu8 && x[j] != 0x0du8 && x[j] != 0x23u8,
        forall|j: int|
            0 <= j < y.len() ==> #[trigger] y[j] != 0x20u8 && y[j] != 0x09u8 && y[j] != 0x0au8 && y[j]
                != 0x0cu8 && y[j] != 0x0du8 && y[j] != 0x23u8,
        x[0] < 0x80u8 && x[0] != 0x0bu8 && x.last() < 0x80u8 && x.last() != 0x0bu8,
        y[0] < 0x80u8 && y[0] != 0x0bu8 && y.last() < 0x80u8 && y.last() != 0x0bu8,
        sep == 0x20u8 || sep == 0x09u8 || sep == 0x0cu8 || sep == 0x0du8,
        x != y,
    ensures
        edges_from(x + seq![sep] + y, 0, 1) == Ok::<Seq<(Seq<char>, Seq<char>)>, nat>(
            seq![(decode_utf8(x), decode_utf8(y))],
        ),
{
    let b = x + seq![sep] + y;
    let nx = x.len() as int;
    let ny = y.len() as int;
    let e = nx + 1 + ny;
    assert(is_bare_label(x)) by {
        assert(x[nx - 1] == x.last());
    }
    assert(is_bare_label(y)) by {
        assert(y[ny - 1] == y.last());
    }
    assert forall|j: int| 0 <= j < nx implies #[trigger] b[0 + j] == x[j] by {}
    assert forall|j: int| 0 <= j < ny implies #[trigger] b[0 + nx + 1 + j] == y[j] by {}
    assert(b[0 + nx] == sep);
    lemma_bare_line(b, 0, x, y);
    assert(b.len() == e);
    lemma_line_end(b, 0, e);
    lemma_edges_unfold(b, 0, 1);
    assert(edges_from(b, e + 1, 2) == Ok::<Seq<(Seq<char>, Seq<char>)>, nat>(seq![]));
    assert(seq![(decode_utf8(x), decode_utf8(y))] + seq![] =~= seq![(decode_utf8(x), decode_utf8(y))]);
}

} // verus!

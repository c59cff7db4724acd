//! Closeness vitality on reference graphs, with expected values from
//! `networkx.closeness_vitality`.

use rsomics_closeness_vitality::io;
use rsomics_closeness_vitality::{closeness_vitality, closeness_vitality_node, is_connected};
use rsomics_closeness_vitality::{StringHashMap, Vitality};

fn graph_from_str(edges: &str) -> io::Graph {
    io::read_edgelist_str(edges).expect("parse edge list")
}

fn as_f64(v: Vitality) -> f64 {
    match v {
        Vitality::Finite(k) => k as f64,
        Vitality::NegInfinity => f64::NEG_INFINITY,
        Vitality::PosInfinity => f64::INFINITY,
        Vitality::Undefined => f64::NAN,
    }
}

fn at(cv: &StringHashMap<Vitality>, label: &str) -> f64 {
    as_f64(*cv.get(label).expect("label present"))
}

fn check(got: f64, want: f64, label: &str) {
    if want.is_infinite() {
        assert!(
            got.is_infinite() && got.signum() == want.signum(),
            "{label}: got {got}, want {want}"
        );
    } else {
        // Integer-valued vitalities: bit-exact (they come from integer BFS sums).
        assert_eq!(
            got,
            want,
            "{label}: got {got}, want {want} (diff {})",
            (got - want).abs()
        );
    }
}

// Cycle(3): all vitalities = 2.0
const CYCLE3: &str = "0 1\n1 2\n2 0\n";

#[test]
fn cycle3_all() {
    let g = graph_from_str(CYCLE3);
    let cv = closeness_vitality(&g);
    check(at(&cv, "0"), 2.0, "cycle3 node 0");
    check(at(&cv, "1"), 2.0, "cycle3 node 1");
    check(at(&cv, "2"), 2.0, "cycle3 node 2");
}

// Path(5): endpoints retain 10.0, interior nodes disconnect -> -inf.
// Wiener(P5) = 20.0 (sum of all unordered pair distances)
const PATH5: &str = "0 1\n1 2\n2 3\n3 4\n";

#[test]
fn path5_all() {
    let g = graph_from_str(PATH5);
    let cv = closeness_vitality(&g);
    check(at(&cv, "0"), 10.0, "path5 node 0");
    check(at(&cv, "1"), f64::NEG_INFINITY, "path5 node 1");
    check(at(&cv, "2"), f64::NEG_INFINITY, "path5 node 2");
    check(at(&cv, "3"), f64::NEG_INFINITY, "path5 node 3");
    check(at(&cv, "4"), 10.0, "path5 node 4");
}

// Cycle(6): all vitalities = 7.0; Wiener(C6) = 27.0
const CYCLE6: &str = "0 1\n1 2\n2 3\n3 4\n4 5\n5 0\n";

#[test]
fn cycle6_all() {
    let g = graph_from_str(CYCLE6);
    let cv = closeness_vitality(&g);
    for node in ["0", "1", "2", "3", "4", "5"] {
        check(at(&cv, node), 7.0, &format!("cycle6 node {node}"));
    }
}

// Cut-vertex graph: 0-1, 0-2, 0-3, 1-4, 1-5
// Wiener(G) = 29.0; nodes 0 and 1 are cut vertices -> vitality = -inf.
// Leaves 2,3,4,5 -> vitality = 11.0.
const CUT_VERTEX: &str = "0 1\n0 2\n0 3\n1 4\n1 5\n";

#[test]
fn cut_vertex_graph() {
    let g = graph_from_str(CUT_VERTEX);
    let cv = closeness_vitality(&g);
    check(at(&cv, "0"), f64::NEG_INFINITY, "cut_vertex node 0");
    check(at(&cv, "1"), f64::NEG_INFINITY, "cut_vertex node 1");
    check(at(&cv, "2"), 11.0, "cut_vertex node 2");
    check(at(&cv, "3"), 11.0, "cut_vertex node 3");
    check(at(&cv, "4"), 11.0, "cut_vertex node 4");
    check(at(&cv, "5"), 11.0, "cut_vertex node 5");
}

#[test]
fn single_node_query_cycle3() {
    let g = graph_from_str(CYCLE3);
    let v = closeness_vitality_node(&g, "0").expect("node 0 present");
    check(as_f64(v), 2.0, "cycle3 single node 0");
}

#[test]
fn single_node_query_absent_returns_none() {
    let g = graph_from_str(CYCLE3);
    assert!(closeness_vitality_node(&g, "99").is_none());
}

// Zachary's karate club, as nx.karate_club_graph() with labels as strings.
const KARATE: &str = "0 1\n0 2\n0 3\n0 4\n0 5\n0 6\n0 7\n0 8\n0 10\n0 11\n0 12\n0 13\n0 17\n0 19\n0 21\n0 31\n\
1 2\n1 3\n1 7\n1 13\n1 17\n1 19\n1 21\n1 30\n\
2 3\n2 7\n2 8\n2 9\n2 13\n2 27\n2 28\n2 32\n\
3 7\n3 12\n3 13\n\
4 6\n4 10\n\
5 6\n5 10\n5 16\n\
6 16\n\
8 30\n8 32\n8 33\n\
9 33\n\
13 33\n\
14 32\n14 33\n\
15 32\n15 33\n\
18 32\n18 33\n\
19 33\n\
20 32\n20 33\n\
22 32\n22 33\n\
23 25\n23 27\n23 29\n23 32\n23 33\n\
24 25\n24 27\n24 31\n\
25 31\n\
26 29\n26 33\n\
27 33\n\
28 31\n28 33\n\
29 32\n29 33\n\
30 32\n30 33\n\
31 32\n31 33\n\
32 33\n";

// Golden: nx.closeness_vitality(nx.karate_club_graph())
// Wiener(karate) = 1351.0
const KARATE_CV: &[(u32, f64)] = &[
    (0, f64::NEG_INFINITY),
    (1, 64.0),
    (2, 19.0),
    (3, 71.0),
    (4, 87.0),
    (5, 85.0),
    (6, 85.0),
    (7, 75.0),
    (8, 64.0),
    (9, 76.0),
    (10, 87.0),
    (11, 90.0),
    (12, 89.0),
    (13, 62.0),
    (14, 89.0),
    (15, 89.0),
    (16, 116.0),
    (17, 88.0),
    (18, 89.0),
    (19, 66.0),
    (20, 89.0),
    (21, 88.0),
    (22, 89.0),
    (23, 83.0),
    (24, 88.0),
    (25, 88.0),
    (26, 91.0),
    (27, 71.0),
    (28, 73.0),
    (29, 86.0),
    (30, 72.0),
    (31, 25.0),
    (32, 52.0),
    (33, -20.0),
];

#[test]
fn karate_all_nodes() {
    let g = graph_from_str(KARATE);
    let cv = closeness_vitality(&g);
    for &(node, want) in KARATE_CV {
        let label = node.to_string();
        let got = at(&cv, &label);
        check(got, want, &format!("karate node {node}"));
    }
}

// gnm_random_graph(40, 100, seed=7): connected random graph, listed as
// nx.write_edgelist gives it.
const GNM40: &str = "0 31\n0 9\n0 36\n1 22\n1 39\n1 33\n1 34\n2 5\n2 35\n2 4\n3 25\n3 37\n3 27\n3 36\n3 14\n3 19\n3 13\n3 39\n3 6\n4 34\n4 15\n4 35\n4 38\n4 29\n4 30\n4 12\n4 13\n5 35\n5 36\n5 17\n5 10\n5 9\n5 19\n5 16\n6 23\n6 37\n6 30\n6 9\n7 36\n7 34\n7 32\n7 31\n7 10\n8 18\n8 27\n8 32\n9 20\n9 26\n9 21\n9 11\n9 34\n9 16\n9 23\n10 26\n10 39\n10 30\n11 35\n11 15\n11 37\n12 36\n13 32\n13 39\n13 28\n13 33\n14 37\n14 24\n15 19\n15 25\n16 18\n16 21\n17 35\n18 28\n18 24\n19 36\n19 33\n20 27\n20 21\n20 36\n21 31\n21 38\n22 38\n22 29\n22 26\n23 29\n23 39\n23 30\n24 39\n25 37\n25 31\n25 28\n26 27\n26 31\n26 34\n28 36\n29 37\n29 35\n29 31\n31 34\n31 37\n35 36\n";

// Golden: nx.closeness_vitality on gnm_random_graph(40, 100, seed=7)
// Wiener(G) = 1839.0
const GNM40_CV: &[(u32, f64)] = &[
    (0, 95.0),
    (1, 88.0),
    (2, 101.0),
    (3, 40.0),
    (4, 23.0),
    (5, 52.0),
    (6, 84.0),
    (7, 77.0),
    (8, 110.0),
    (9, 38.0),
    (10, 79.0),
    (11, 91.0),
    (12, 100.0),
    (13, 54.0),
    (14, 100.0),
    (15, 89.0),
    (16, 77.0),
    (17, 111.0),
    (18, 87.0),
    (19, 75.0),
    (20, 91.0),
    (21, 82.0),
    (22, 97.0),
    (23, 86.0),
    (24, 105.0),
    (25, 86.0),
    (26, 77.0),
    (27, 84.0),
    (28, 83.0),
    (29, 74.0),
    (30, 93.0),
    (31, 63.0),
    (32, 97.0),
    (33, 100.0),
    (34, 63.0),
    (35, 72.0),
    (36, 42.0),
    (37, 70.0),
    (38, 97.0),
    (39, 58.0),
];

#[test]
fn gnm40_all_nodes() {
    let g = graph_from_str(GNM40);
    let cv = closeness_vitality(&g);
    for &(node, want) in GNM40_CV {
        let label = node.to_string();
        let got = at(&cv, &label);
        check(got, want, &format!("gnm40 node {node}"));
    }
}

// gnm_random_graph(25, 70, seed=42): connected random graph.
const GNM25: &str = "0 23\n0 1\n0 19\n0 8\n0 21\n1 23\n1 21\n1 24\n1 7\n1 3\n2 17\n2 6\n2 3\n2 22\n2 9\n2 19\n2 8\n2 24\n2 12\n3 20\n3 23\n3 12\n3 7\n4 7\n4 6\n4 8\n4 20\n5 24\n5 11\n5 20\n5 7\n5 21\n6 17\n6 18\n6 21\n6 20\n7 8\n7 16\n7 13\n7 24\n7 21\n8 10\n8 19\n8 12\n8 22\n8 20\n8 17\n9 20\n10 24\n10 12\n10 22\n11 19\n11 12\n12 14\n12 15\n12 19\n13 18\n13 22\n13 19\n14 18\n14 17\n14 20\n14 16\n15 16\n17 22\n17 23\n18 23\n20 22\n20 21\n21 23\n";

// Golden: nx.closeness_vitality on gnm_random_graph(25, 70, seed=42)
// Wiener(G) = 582.0
const GNM25_CV: &[(u32, f64)] = &[
    (0, 44.0),
    (1, 45.0),
    (2, 29.0),
    (3, 39.0),
    (4, 47.0),
    (5, 41.0),
    (6, 43.0),
    (7, 20.0),
    (8, 31.0),
    (9, 56.0),
    (10, 50.0),
    (11, 52.0),
    (12, 20.0),
    (13, 43.0),
    (14, 40.0),
    (15, 60.0),
    (16, 51.0),
    (17, 44.0),
    (18, 48.0),
    (19, 39.0),
    (20, 30.0),
    (21, 40.0),
    (22, 43.0),
    (23, 44.0),
    (24, 43.0),
];

#[test]
fn gnm25_all_nodes() {
    let g = graph_from_str(GNM25);
    let cv = closeness_vitality(&g);
    for &(node, want) in GNM25_CV {
        let label = node.to_string();
        let got = at(&cv, &label);
        check(got, want, &format!("gnm25 node {node}"));
    }
}

#[test]
fn inline_hash_comment_matches_uncommented() {
    // A `#` starts a comment anywhere in a line (nx.parse_edgelist), so a `#`
    // fused to a token and a whole-line comment must not alter the graph.
    let with_comments = graph_from_str("0 1\n1 2#c\n# whole-line comment\n2 3\n");
    let plain = graph_from_str("0 1\n1 2\n2 3\n");
    assert_eq!(with_comments.labels, plain.labels);
    assert_eq!(with_comments.adj, plain.adj);
}

#[test]
fn connectivity_detection() {
    // A connected graph (path) and a two-component graph.
    assert!(is_connected(&graph_from_str("0 1\n1 2\n2 3\n")));
    assert!(!is_connected(&graph_from_str("0 1\n2 3\n")));
}

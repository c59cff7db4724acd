//! The edge-list reader, connectivity, single-node queries and the printed table.

use rsomics_closeness_vitality::io::{read_edgelist_str, ParseError};
use rsomics_closeness_vitality::report::{vitality_report, ReportError};
use rsomics_closeness_vitality::{closeness_vitality, closeness_vitality_node, is_connected, Vitality};

fn labels(text: &str) -> Vec<String> {
    read_edgelist_str(text).expect("parse edge list").labels
}

fn adj(text: &str) -> Vec<Vec<u32>> {
    read_edgelist_str(text).expect("parse edge list").adj
}

#[test]
fn labels_in_first_seen_order() {
    assert_eq!(labels("b a\nc b\n"), vec!["b", "a", "c"]);
    assert_eq!(adj("b a\nc b\n"), vec![vec![1, 2], vec![0], vec![0]]);
}

#[test]
fn self_loops_are_dropped() {
    // A self-loop line interns nothing.
    assert_eq!(labels("x x\n0 1\n"), vec!["0", "1"]);
    assert_eq!(adj("x x\n0 1\n"), vec![vec![1], vec![0]]);
}

#[test]
fn duplicate_edges_collapse() {
    assert_eq!(adj("0 1\n1 0\n0 1\n1 2\n"), vec![vec![1], vec![0, 2], vec![1]]);
}

#[test]
fn extra_tokens_are_ignored() {
    assert_eq!(adj("0 1 {'weight': 3}\n1 2 7\n"), vec![vec![1], vec![0, 2], vec![1]]);
}

#[test]
fn whitespace_and_line_endings() {
    // CRLF, tabs, blank lines, and non-ASCII whitespace at the ends of a line.
    let text = "\r\n  0\t1\r\n\n\u{a0}1 2\u{3000}\r\n   \n";
    assert_eq!(labels(text), vec!["0", "1", "2"]);
    assert_eq!(adj(text), vec![vec![1], vec![0, 2], vec![1]]);
}

#[test]
fn non_ascii_whitespace_inside_a_line_is_part_of_a_label() {
    assert_eq!(labels("a\u{a0}b c\n"), vec!["a\u{a0}b", "c"]);
}

#[test]
fn unicode_labels() {
    assert_eq!(labels("ñ 東京\n東京 🦀\n"), vec!["ñ", "東京", "🦀"]);
}

#[test]
fn last_line_without_newline() {
    assert_eq!(adj("0 1\n1 2"), vec![vec![1], vec![0, 2], vec![1]]);
}

#[test]
fn single_label_line_is_refused_with_its_number() {
    assert_eq!(read_edgelist_str("0 1\n\n2\n3 4\n").err(), Some(ParseError::SingleLabel { line: 3 }));
    // The first bad line is reported.
    assert_eq!(read_edgelist_str("a\nb\n").err(), Some(ParseError::SingleLabel { line: 1 }));
    // A comment does not count as a second label.
    assert_eq!(read_edgelist_str("a #b\n").err(), Some(ParseError::SingleLabel { line: 1 }));
}

#[test]
fn comment_only_and_empty_input() {
    let g = read_edgelist_str("# nothing here\n\n").expect("parse");
    assert_eq!(g.n(), 0);
    assert!(is_connected(&g));
    let g = read_edgelist_str("").expect("parse");
    assert_eq!(g.n(), 0);
    assert!(g.adj.is_empty());
}

#[test]
fn index_maps_labels_to_ids() {
    let g = read_edgelist_str("x y\ny z\n").expect("parse");
    assert_eq!(g.index.get("x"), Some(&0));
    assert_eq!(g.index.get("z"), Some(&2));
    assert_eq!(g.index.get("w"), None);
}

#[test]
fn single_edge_graph() {
    // Removing either end leaves one node: Wiener 1 - 0.
    let g = read_edgelist_str("a b\n").expect("parse");
    assert!(is_connected(&g));
    assert_eq!(closeness_vitality_node(&g, "a"), Some(Vitality::Finite(1)));
    assert_eq!(closeness_vitality_node(&g, "b"), Some(Vitality::Finite(1)));
}

#[test]
fn star_centre_is_a_cut_vertex() {
    // Star K1,3: Wiener = 3*1 + 3*2 = 9; removing a leaf leaves a path of 3 (Wiener 4).
    let g = read_edgelist_str("c x\nc y\nc z\n").expect("parse");
    let cv = closeness_vitality(&g);
    assert_eq!(cv.get("c"), Some(&Vitality::NegInfinity));
    assert_eq!(cv.get("x"), Some(&Vitality::Finite(5)));
}

#[test]
fn complete_graph_vitality() {
    // K4: Wiener 6, K3: Wiener 3.
    let g = read_edgelist_str("0 1\n0 2\n0 3\n1 2\n1 3\n2 3\n").expect("parse");
    for v in ["0", "1", "2", "3"] {
        assert_eq!(closeness_vitality_node(&g, v), Some(Vitality::Finite(3)));
    }
}

#[test]
fn triangle_with_pendant() {
    // 0-1, 1-2, 2-0, 2-3: Wiener = 1+1+1+1+2+2 = 8.
    // Without 3: triangle, Wiener 3 -> 5. Without 0: path 1-2-3, Wiener 4 -> 4.
    let g = read_edgelist_str("0 1\n1 2\n2 0\n2 3\n").expect("parse");
    let cv = closeness_vitality(&g);
    assert_eq!(cv.get("3"), Some(&Vitality::Finite(5)));
    assert_eq!(cv.get("0"), Some(&Vitality::Finite(4)));
    assert_eq!(cv.get("2"), Some(&Vitality::NegInfinity));
}

#[test]
fn disconnected_graph_vitality_is_undefined() {
    let g = read_edgelist_str("0 1\n2 3\n").expect("parse");
    assert!(!is_connected(&g));
    let cv = closeness_vitality(&g);
    for v in ["0", "1", "2", "3"] {
        assert_eq!(cv.get(v), Some(&Vitality::Undefined));
    }
}

#[test]
fn report_sorted_by_label() {
    let g = read_edgelist_str("b c\na b\nc10 c\nc2 c\n").expect("parse");
    let rows = vitality_report(&g, None).expect("connected");
    let names: Vec<&str> = rows.iter().map(|r| r.0.as_str()).collect();
    assert_eq!(names, vec!["a", "b", "c", "c10", "c2"]);
    assert_eq!(rows.len(), g.n());
}

#[test]
fn report_single_node_and_errors() {
    let g = read_edgelist_str("0 1\n1 2\n2 0\n").expect("parse");
    assert_eq!(vitality_report(&g, Some("1")), Ok(vec![("1".to_string(), Vitality::Finite(2))]));
    assert_eq!(vitality_report(&g, Some("7")), Err(ReportError::UnknownNode));
    let d = read_edgelist_str("0 1\n2 3\n").expect("parse");
    assert_eq!(vitality_report(&d, Some("7")), Err(ReportError::Disconnected));
    assert_eq!(vitality_report(&d, None), Err(ReportError::Disconnected));
}

#[test]
fn path_leaf_keeps_wiener_of_shorter_path() {
    // Path of 4: Wiener 10; removing an end leaves a path of 3 (Wiener 4).
    let g = read_edgelist_str("0 1\n1 2\n2 3\n").expect("parse");
    assert_eq!(closeness_vitality_node(&g, "0"), Some(Vitality::Finite(6)));
    assert_eq!(closeness_vitality_node(&g, "1"), Some(Vitality::NegInfinity));
}

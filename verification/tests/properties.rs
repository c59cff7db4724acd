//! Properties of the library checked on concrete graphs and texts.

use rsomics_closeness_vitality::io::{read_edgelist_str, Graph, ParseError};
use rsomics_closeness_vitality::{closeness_vitality, closeness_vitality_node, is_connected, Vitality};

fn parse(text: &str) -> Graph {
    read_edgelist_str(text).expect("parse edge list")
}

fn sorted_vitalities(g: &Graph) -> Vec<(String, Vitality)> {
    let cv = closeness_vitality(g);
    let mut rows: Vec<(String, Vitality)> = g
        .labels
        .iter()
        .map(|l| (l.clone(), *cv.get(l.as_str()).expect("every label has a value")))
        .collect();
    rows.sort_by(|a, b| a.0.cmp(&b.0));
    rows
}

#[test]
fn comment_appended_to_any_line_changes_nothing() {
    let plain = "a b\nb c\nc d";
    let plain_graph = parse(plain);
    for text in ["a b# x y\nb c\nc d", "a b\nb c #c a\nc d", "a b\nb c\nc d#", "a b\n#a z\nb c\nc d"] {
        let g = parse(text);
        assert_eq!(g.labels, plain_graph.labels);
        assert_eq!(g.adj, plain_graph.adj);
    }
    // A refused line stays refused, under the same number.
    assert_eq!(read_edgelist_str("a b\nc\n").err(), Some(ParseError::SingleLabel { line: 2 }));
    assert_eq!(read_edgelist_str("a b\nc # d e\n").err(), Some(ParseError::SingleLabel { line: 2 }));
}

#[test]
fn every_parsed_node_has_a_neighbour_and_an_index_entry() {
    let g = parse("p q\nq r\nr r\ns s\nq p\n");
    assert_eq!(g.labels, vec!["p", "q", "r"]);
    for (i, label) in g.labels.iter().enumerate() {
        assert!(!g.adj[i].is_empty());
        assert_eq!(g.index.get(label.as_str()), Some(&(i as u32)));
    }
    assert_eq!(g.index.get("s"), None);
}

#[test]
fn single_label_query_matches_the_map() {
    let g = parse("0 1\n1 2\n2 0\n2 3\n3 4\n4 5\n5 3\n");
    let cv = closeness_vitality(&g);
    for label in g.labels.iter() {
        assert_eq!(closeness_vitality_node(&g, label).as_ref(), cv.get(label.as_str()));
    }
    assert_eq!(closeness_vitality_node(&g, "9"), None);
    assert_eq!(cv.get("9"), None);
}

#[test]
fn repeated_runs_give_the_same_map() {
    let g = parse("a b\nb c\nc d\nd a\na c\n");
    assert_eq!(sorted_vitalities(&g), sorted_vitalities(&g));
}

#[test]
fn connectivity_and_finite_vitalities_go_together() {
    let connected = parse("a b\nb c\nc a\n");
    assert!(is_connected(&connected));
    for (_, v) in sorted_vitalities(&connected) {
        assert_eq!(v, Vitality::Finite(2));
    }
    let split = parse("a b\nb c\nx y\n");
    assert!(!is_connected(&split));
    for (_, v) in sorted_vitalities(&split) {
        assert!(v == Vitality::Undefined || v == Vitality::PosInfinity);
    }
}

#[test]
fn vitality_is_wiener_of_graph_minus_wiener_of_node_deleted() {
    // Cycle of 5: Wiener 5*1 + 5*2 = 15; deleting a node leaves a path of 4
    // (Wiener 10), so each vitality is 5, below the node's distance sum 6.
    let g = parse("a b\nb c\nc d\nd e\ne a\n");
    for (_, v) in sorted_vitalities(&g) {
        assert_eq!(v, Vitality::Finite(5));
    }
    // Cycle of 4 (Wiener 8) minus a node is a path of 3 (Wiener 4).
    let c4 = parse("a b\nb c\nc d\nd a\n");
    assert_eq!(closeness_vitality_node(&c4, "a"), Some(Vitality::Finite(4)));
}

#[test]
fn leaf_vitality_is_its_distance_sum() {
    // Triangle a-b-c with the leaf d on c: d's distances are 1, 2, 2.
    let g = parse("a b\nb c\nc a\nc d\n");
    assert_eq!(closeness_vitality_node(&g, "d"), Some(Vitality::Finite(5)));
}

#[test]
fn reordering_lines_and_swapping_labels_keeps_the_map() {
    let first = parse("a b\nb c\nc a\nc d\nd e\n");
    let second = parse("e d\nd c\na c\nc b\nb a\n");
    assert_ne!(first.labels, second.labels);
    assert_eq!(sorted_vitalities(&first), sorted_vitalities(&second));
}

#[test]
fn swapping_the_labels_of_a_line_keeps_the_map() {
    let first = parse("a b\nb c\nc a\nc d\n");
    let second = parse("b a\nc b\na c\nd c\n");
    assert_eq!(sorted_vitalities(&first), sorted_vitalities(&second));
}

#[test]
fn a_label_that_starts_with_a_unicode_space_is_trimmed_only_at_the_line_start() {
    // Trimming the line removes a leading no-break space, which the same label
    // keeps in second place.
    let kept = parse("a \u{a0}b\n");
    assert_eq!(kept.labels, vec!["a", "\u{a0}b"]);
    let trimmed = parse("\u{a0}b a\n");
    assert_eq!(trimmed.labels, vec!["b", "a"]);
}

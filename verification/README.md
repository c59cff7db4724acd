# rsomics-closeness-vitality

Closeness vitality of every node in an undirected, unweighted graph, as
`networkx.closeness_vitality` computes it: `vitality(v) = Wiener(G) − Wiener(G − v)`,
where the Wiener index sums the shortest-path distances over all unordered node
pairs. The library is written in Verus and its behaviour is proved against the
contracts it states.

Layout:

- `src/paths.rs` — walks, shortest-path distances, connectivity and the Wiener
  index as mathematical definitions, with their lemmas.
- `src/bfs.rs` — breadth-first search, proved to label every node with its
  shortest-path distance.
- `src/lib.rs` — Wiener indices, connectivity and closeness vitality.
- `src/numbering.rs` — distances and Wiener indices do not depend on how the
  nodes are numbered.
- `src/lines.rs`, `src/io.rs` — the edge-list reader and the graph type.
- `src/report.rs` — the table the command line prints (sorted by label, or one node).
- `src/laws.rs` — properties that hold for every graph and every text.
- `app/main.rs` — the command line: argument parsing, file and stdin input,
  text and JSON output.

Vitalities are exact integers (`Vitality::Finite`), `-inf` when removing the
node disconnects a connected graph, and `+inf` or undefined on a disconnected
graph; the command line prints them as networkx's floats would read.

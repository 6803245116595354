# mermaid_ascii

Renders Mermaid `flowchart` / `graph` diagrams as Unicode box-drawing text,
with optional ANSI colors. The library is written in Verus: the functions
in `src/` carry contracts that Verus proves, with one trusted exception,
`text::push_char`, a thin wrapper around `String::push` whose contract
Verus takes on trust. How much a contract pins down varies: the parser,
the style and settings code and text emission are specified exactly; the
layout and drawing code state properties of their results (layering,
ordering, spacing, which cells a drawing step may change and what some of
them hold) rather than the complete picture.

Layout of the crate:

- `src/text.rs` — character-sequence helpers (trimming, searching, decimal
  formatting) and their specifications.
- `src/style.rs` — colors, text styles and the ANSI sequences that select
  them; `#rgb` / `#rrggbb` parsing.
- `src/graph.rs` — the graph model (nodes, edges, subgraphs) and its
  well-formedness invariant.
- `src/parser.rs` — the flowchart parser. Its contract describes the
  resulting graph line by line: node names, labels, shapes and subgraphs,
  the edges between names, `classDef` / `class` / `style` directives, and
  the first error a document is rejected with.
- `src/layout.rs` — layered layout (longest-path layering, dummy nodes for
  long edges, barycentric ordering, coordinate assignment), one subgraph
  level at a time.
- `src/render.rs` — the character canvas, boxes, edges, merges, labels,
  containers, mirroring for bottom-up and right-to-left charts, and text
  emission.
- `src/settings.rs` — theme names and the color on/off decision.
- `app/main.rs` — the command-line program (argument parsing, file and
  terminal I/O).
- `tests/` — scenario tests on concrete diagrams.

# plantuml_little

The layout decisions of a PlantUML renderer, as a Verus-verified library.

- `src/` is the verified library: which layout engine a diagram goes to
  (`lib.rs`), identifier and name handling (`text.rs`), HTML and creole
  markup scanning (`markup.rs`), the hide/show rules and member text of
  class diagrams (`class_diagram.rs`), the graph a class diagram hands to the
  graph layout (`class_graph.rs`), the grouping and draw order of activity
  diagrams (`activity.rs`), the pre-scans of their event lists
  (`activity_scan.rs`), the nodes and structural edges (if blocks,
  repeat loop-backs, break edges) that those events make
  (`activity_graph.rs`) and the greedy wrapping of note text
  (`wrap.rs`).
- `tests/` runs the library on concrete values.
- `app/` holds floating-point helpers of the activity layout (swimlane
  centres, edge points, loop-back routes, direction transforms, bounds) and
  the conversions between positioned nodes and the library's tags; they call
  the library for every decision.  The full activity and class-diagram
  layouts are not here: they rest on text measurement and graph layout
  outside this crate.

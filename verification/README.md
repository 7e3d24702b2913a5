# skill-graph

Turns Markdown skill files (YAML frontmatter plus a body) into a dependency
graph, then lints, queries and exports it.

- `src/` is the library, verified with Verus: frontmatter location and schema
  aliases (`parser`, `config`), body sections (`parser::markdown`), the graph
  over petgraph (`graph`), cycles, roles and diagnostics (`analysis`), queries
  (`query`), and the DOT, Turtle and Cypher renderings (`graph::dot`,
  `export`). Each public function states its result exactly over spec
  functions; the proof functions named `lemma_*` with a doc comment state the
  library's laws.
- `app/` is the `skill-graph` command line: arguments, file and directory
  access, YAML and TOML parsing, the concurrent scan and Graphviz.
- `tests/` exercise the library on concrete values.

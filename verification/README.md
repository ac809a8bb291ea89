# dendrite

A dependency-graph tool for Zig and Rust codebases: it parses imports, builds a graph of
files, finds cycles and layer violations, and produces a JSON map, a Markdown overview
with a Mermaid diagram, and a terminal explorer.

- `src/` — the library, verified with Verus: parsers (`parser/`), the graph and its
  analysis (`graph/`), the JSON map and Markdown overview (`output/`), file selection
  rules (`discovery.rs`), and the explorer's layout, state, key bindings and drawing
  (`tui/`). Contracts are stated over spec functions; laws are the public proof
  functions named `law_*`.
- `app/` — the program around it: command line, walking the file system, reading files,
  JSON and Handlebars output, and the terminal loop.
- `tests/` — tests of the library on concrete inputs.

# weibian

Weibian (`wb`) compiles a directory of Typst sources into a static HTML site
of linked, transcludable nodes. This crate is its verified core, written in
Verus, and a thin program around it.

## Layout

- `src/` — the library, verified by Verus:
  - `interner`, `transclusion_graph`, `import_graph`, `graph` — node names,
    the transclusion and import graphs, and the petgraph graph that the
    planner walks;
  - `extract`, `nodes` — reading node elements, metadata, links and
    transclusion markers out of a file's HTML;
  - `compiler` (with `compiler/rendering`) and `process` — the node store
    across incremental rebuilds, the render plan, diagnostics, and the
    inputs handed to a renderer; `compiler/tracking` proves that the pages
    follow the store across rebuilds, and `compiler/stateless` that they
    are, by name, those of a build from the current outputs alone;
  - `render`, `body`, `html` — the renderer interface, the substitution of
    links and transclusions in a body, and HTML helpers;
  - `diagnostics`, `config`, `args`, `watch` — messages, settings, command
    line values and the watch-mode decisions.
- `tests/` — tests of the library.
- `app/` — the `wb` program: command line, configuration files, Typst
  compilation, templates (minijinja), file output and the file watcher.

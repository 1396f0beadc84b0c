# aube

The logic of a package manager for Node, verified with Verus.

- `src/yarn/`: lockfiles of Yarn classic. `tokens` reads lines and blocks, `read` builds the
  dependency graph, `write` turns a graph into text; `lines`,
  `plain`, `round_trip` and `rewriting` prove what reading gives back of what was written.
- `src/lockfile.rs`, `src/dep_path.rs`, `src/string_map.rs`: the graph, its keys, and the
  sorted map that both are made of.
- `src/platform.rs`, `src/graph_filter.rs`: which packages can be installed on which
  machines, and removing the others from a graph.
- `src/path.rs`, `src/bin_target.rs`, `src/interpreter.rs`, `src/shim.rs`, `src/links.rs`:
  paths, and the links and scripts that stand in for package binaries.
- `src/dirs.rs`, `src/workspace.rs`, `src/error.rs`: shared directories, workspaces, errors.
- `app/`: the file system, the environment and the platform around the library.

Statements about several functions are the proof functions whose names start with `law_`.

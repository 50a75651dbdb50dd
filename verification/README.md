# belt

`belt` is the build tool of the Unnameable language: it reads a project's
`belt.lethr`, orders the project's source files by their imports, decides what
must be compiled again from `belt.lock`, and drives the `unnc` compiler.

The decisions are a library verified with Verus (`src/`); the command that
touches the disk and runs the tools is a thin program around it (`app/`).

## Layout

- `src/text.rs` — lines, trimming and words of texts.
- `src/leather/` — the Leather configuration format: lexer, parser and the
  analyzer that gives a `Config`; `src/lib.rs` holds `load_config`, the three
  together.
- `src/config.rs` — the configuration.
- `src/topo.rs` — depth-first ordering of a graph of node indices.
- `src/graph.rs` — module declarations and imports of source texts, the module
  map, the compile order and the imported modules that no local file declares.
- `src/lock.rs` — the lock file: its text, its entries and when a module is dirty.
- `src/project.rs` — the workspace of a configuration.
- `src/builder.rs` — the steps of a build and of a check, from the module graph,
  the lock, what was read from the disk and the stubs and artifacts that the
  resolver found for modules of other projects.
- `src/incremental.rs` — what the lock buys: a build after which nothing changed
  compiles nothing, and exactly the changed files and their importers are
  compiled again.
- `src/resolver.rs` — the search for a module that no local file declares, in
  the standard library (unless the project is freestanding) and in the
  project's dependencies, as a conversation with the caller; `app/` answers
  from the disk before each build and check. A whole search finds the module
  exactly where a project reached through the dependencies has its stub.
- `src/scaffold.rs` — the folders and files of a new project.
- `src/new_project.rs` — the `belt.lethr` of a new project reads back as that
  project.
- `src/messages.rs` — the texts that the errors are reported with.
- `app/main.rs` — the `belt` command.
- `tests/` — tests of the library on concrete values.

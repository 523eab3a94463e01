# cfind

`cfind` is a local, Git-aware symbol index: it parses the tracked Rust,
JavaScript, TypeScript and C# files of the repositories under a root with
Tree-sitter, stores their definitions in SQLite, and answers fuzzy symbol
queries with local locations and GitHub or GitLab links.

The library in `src/` holds the rules, each function with a contract that
Verus proves:

- `config`: languages, configuration from environment values, index
  locations on Linux, macOS and Windows (the program passes in which one it
  was built for).
- `git`: which tracked files are indexed, branch facts, remote links.
- `language`, `declared`: definitions found in a syntax tree, their kinds,
  namespaces and qualified names.
- `search`: query terms, name matching tiers, ranking, namespace
  collapsing, Git state notes.
- `index`: index metadata and staleness, source file selection, repository
  roots, rebuild reports.
- `report`: how results and requests are put into words.
- `text`, `path`, `order`, `filter`: strings, Unix paths, path order and
  regular-expression path filters.

`app/main.rs` is the command line program: it reads the environment, walks
the file system, runs Git, reads and writes the SQLite index and prints. What
it does with those values (the configuration, which files to index, the
search and what is shown) is decided by library functions; the program
itself only chooses the order of the steps and stops at the first error.

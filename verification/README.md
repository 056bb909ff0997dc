# harbor

A local warehouse of build artifacts: each stored output is tagged, tied to
the git commit it was built from, and kept under `.harbor/` in the
repository, with a JSON index and one blob per artifact named by commit and
content hash.

- `src/` is the library, verified with Verus: making an artifact from its
  data (content hash, id), the paths of the warehouse, listing with commit and
  tag filters, finding an artifact by an id prefix, statistics, cleaning by
  age and by a count per tag, and the text of every report. `src/laws.rs`
  states and proves what holds across these operations.
- `app/` is the `harbor` command: argument parsing, the file system, git,
  the clock, and JSON.
- `tests/` runs the library on concrete values.

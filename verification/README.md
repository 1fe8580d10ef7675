# cargo-remove-unused-derives

A Cargo subcommand that finds and removes unused `#[derive(...)]` entries,
guided by the compiler: it copies the project into a sandbox, strips every
derive there (leaving a placeholder marker and an empty slot line behind),
and runs `cargo check` again and again, putting back only the derives that
the diagnostics ask for. With `--write` the edited files are copied back.

The decisions are a library verified with Verus; the command line, the
sandbox on disk and the `cargo` runs are ordinary Rust around it.

## Layout

- `src/` — the verified library
  - `text.rs`, `path.rs`: characters, splitting, and paths compared by
    their components as `std::path::Path` compares them
  - `check.rs`: compiler diagnostics, the type names and derives they
    mention, and which of them the restore loop acts on
  - `items.rs`: the stripped items of every file, keyed by path
  - `remove.rs`: finding derive attributes (with `syn`) and replacing them
    by placeholder blocks
  - `restore.rs`: tying a diagnostic to an item, choosing the derives to put
    back, and when the loop stops
  - `patch.rs`: filling derive slots and removing the markers
  - `report.rs`: sorting and the printed report
  - `project.rs`: which files take part, and when writing back is allowed
  - `error.rs`: failures, their exit codes and messages
- `tests/` — tests of the library
- `app/` — `main`, the sandbox, `cargo check` and the restore loop's I/O

# Everyfile

The index and search core of a file finder, written and proved in Verus, and the ordinary Rust
around it.

- `src/` is the library. `text`, `paths`, `sorting` and `scopes` are its foundations; `unicode`,
  `relevance` and `query` match and rank; `projection` is the byte image that queries read;
  `scanner`, `index`, `reconciliation`, `fsevents` and `coordinator` build the index and keep it
  current; `volume` and `volume_lifecycle` follow mounted volumes; `shell`, `actions`, `scheduler`
  and `indexing_control` hold the decisions of the application.
- `app/` reads directories, maps files, keeps the store in SQLite, runs background workers and
  draws the macOS window and menu.
- `tests/` runs the library on concrete values.

The library trusts `String::push`, `std::str::from_utf8`, `std::time::Duration::from_secs` and the
tables of `unicode-casefold` and `unicode-normalization`; each trusted item says what is taken for
granted.

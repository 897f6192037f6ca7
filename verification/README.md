# golab

Git tracks code; golab tracks work. Several people and agents share one checkout:
each takes a lease on the symbols it changes, asks whoever holds what it needs, and
is handed tasks that collide with nobody's.

## Layout

- `src/` is the library. Every function in it is proved against its contract. The
  shared state is a value (`Store`), and each operation is stated as a function of the
  state before it, its arguments and the time.
- `src/*_laws.rs`, and the functions named `law_*` elsewhere, state what holds of
  whole runs: leases exclude each other, a scope is taken as a whole or not at all,
  waves respect dependencies, a scan of one repository leaves the others alone.
- `tests/` runs the library on small workspaces.
- `app/` is the command line: arguments, the SQLite file under `.golab/`, walking the
  tree, standard input and output.

## What is believed, not proved

Calls into other crates stand behind a few wrappers, each with a comment that says
what is claimed of it:

- `tree_sitter` and the grammar crates (`lang.rs`, `parse.rs`): which grammar and which
  tags a language has, what becomes of a query, which captures it gives on a source
  text.
- `regex` (`sql.rs`): which matches a pattern has in a text.
- `blake3` (`ids.rs`): the hash of some bytes.
- The standard library (`text.rs`, `ids.rs`, `sql.rs`): letters and digits, small
  letters, decoding UTF-8, the clock.

What the wrappers return is taken up by functions that are proved for every value of
it: `parse::select`, `parse::build`, `imports::list_imports`, `sql::list_tables`,
`sql::list_references`.

## What an embedder supplies

The library reads no files and starts no processes. Which symbols are tests or serve a
route, which services the manifests declare, and who is editing what right now come in
as plain values (`scan::ScanInput`, `arch::Activity`).

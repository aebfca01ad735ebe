# treeport

`treeport` ("tree report") walks the file system from the given roots, puts
each directory it meets in the first category whose detection command
succeeds there, runs the category's statistic commands in it, and prints a
CSV report: one row per categorized directory and per file outside them.

Layout:

- `src/` is the verified library (Verus). It does no I/O.
  - `walk.rs`: the walk as a state machine (`Walker`): it asks for a
    detection or a listing and is told the outcome.
  - `tree.rs`: the model of a file system as a tree, what a walk reports of
    it, and the proofs that a walk answered from a tree reports exactly that
    and finishes.
  - `config.rs`: the report spec and the rule for relative program paths.
  - `report.rs`: root checks, report items, the report table and its CSV.
  - `csv_format.rs`: the CSV record format and the call into the `csv` crate.
  - `csv_read.rs`: reading that format back, and the proof that written
    tables read back unchanged.
  - `text.rs`: trimming of command output.
- `app/main.rs` is the command: argument parsing, reading and parsing the
  TOML spec, running commands, listing directories, printing.
- `tests/` exercises the library.

# lever

A package manager for software built from its git sources. Each package is
described by a *leverfile* (an INI-like file with its name, url, compile and
install commands and dependencies); a database file records which packages
are tracked (and where their leverfiles are), compiled and installed.

## Layout

- `src/` — the library, verified with Verus:
  - `text.rs`: line splitting, trimming, comments and the `=>` separator;
  - `leverfile.rs`: reading leverfiles;
  - `database.rs`: the database and its changes;
  - `storage.rs`: the database file format, and the proof that loading what
    was saved gives the database back;
  - `dependencies.rs`: dependency trees built from the leverfiles read so far;
  - `tree.rs`: install order and drawing of dependency trees;
  - `config.rs`: the configuration file;
  - `terminal.rs`: the scrolling window for command output.
- `app/` — the `lever` command: files, processes and the terminal.
- `tests/` — tests of the library.

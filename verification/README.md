# projenv

A project-directory bookmark manager: register directories under short
aliases, jump to them with `eval "$(projenv activate <alias>)"`, save and load
named profiles of bookmarks, and keep a small stack of files to copy between
directories.

## Layout

- `src/` — the library, verified with Verus:
  - `json.rs` — the JSON reader: the grammar as spec functions over a
    character sequence and a position, and the `Parser` proved against it.
  - `project.rs` — bookmarks, the JSON files they are written to, and reading
    those files back.
  - `roundtrip.rs` — proofs that what is written reads back unchanged
    (bookmarks, profiles, the file buffer).
  - `commands.rs` — what each command decides: finding a bookmark by alias or
    number, registering, removing, activating, listings, choosing a profile,
    the file buffer; with laws relating them.
  - `paths.rs` — where the state files live, path joining, and the step of the
    upward search for `pyproject.toml`.
  - `text.rs` — JSON string escaping, shell quoting, trimming whitespace,
    decimal numbers.
- `tests/` — tests of the library on concrete values.
- `app/main.rs` — the command-line program: arguments, files, environment,
  `git`, and printing.

# gloss

`gloss` attaches durable explanations to the hunks of source edits. Each
source file `dir/name` may have a sibling gloss file `dir/.gloss/name.gloss`
whose header (`version`, `updated`, `editor`) is followed by one record per
explained hunk: an edit ID (a UUID), a line range, a timestamp, the user,
agent and session, and the explanation.

## Layout

- `src/` is the library, verified with Verus. Its contracts state what each
  function returns over mathematical models (`Seq`, `Map`, views of the
  library's types):
  - `format`: the gloss file format, with `parse` and `render` and the law
    that a well-formed file (every instant one chrono holds, one-token
    metadata, one-line texts) reads back from its text as the same
    normalized document (`round_trip`).
  - `paths`: the source/gloss path mapping, which maps back component by
    component for every path with a file name, and path order.
  - `git`: reading `git diff`, `git status` and `git diff --name-status`
    output, and the arguments of the Git runs.
  - `checks`: what `lint` reports, how ranges follow edits, provenance from
    the gloss history.
  - `commands`: what `add`, `update`, `repair` and `status` decide and print.
  - `state`: the derived state kept under the Git directory.
  - `setup`, `editor`, `harness`: what `init` writes (hooks, CI workflow,
    generated-file rule, editor exclusions, agent skills), each merge shown
    to leave its own output unchanged.
  - `text`, `time`, `edit_id`, `error`: text helpers, instants, edit IDs and
    errors.
- `app/` is the command-line program: argument parsing, Git processes, files,
  JSON output. It hands the library plain values and writes back what the
  library decided.
- `tests/` runs the library on concrete values.

The calls into chrono, uuid, sha2 and similar are made from `src/` through
small functions whose contracts name what those crates compute.

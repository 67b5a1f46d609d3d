# diffr

diffr shows structural diffs as trees of regions: folds (functions, types,
blocks) and leaves (runs of lines), one tree for each side of a changed
file. Plugins decide how a file starts out by making moves on those trees:
collapsing, labelling, tagging, cutting leaves, linking fold states and
wrapping siblings in new folds.

This crate is the verified library. Every function in `src/` carries a
Verus contract and is proved against it.

## Layout

- `tree`, `types`, `protocol`: regions, sides and records, and the round
  trip between a tree and its records.
- `paths`, `apply`, `places`: finding regions, and what each move does to
  the trees.
- `draft`: a plugin's moves, carried out on a copy as it makes them.
- `plugins`, `context`, `group`, `removed_runs`, `hide_files`,
  `deleted_bodies`, `test_bodies`, `summarize`: the bundled plugins'
  rules.
- `line_folds`, `line_layout`, `lines`, `spans`, `changed_blocks`, `hunks`,
  `docstrings`, `category`, `mutate`: line-level layout, pairing and
  classification.
- `git`, `select`: what a git comparison is made of, the files it shows and
  their order, and how `git diff`'s arguments are read.
- `route`: where one file's diff goes once its language and parse are
  known, and the sentence that says why a file falls back to lines.
- `unified`: the rows of a hunk in a unified display.
- `laws`: statements that relate several functions.

`app/` holds the command-line program: reading input, HTTP for the
summarize plugin, and the float-based line alignment. Verus does not see
it. `tests/` holds the tests.

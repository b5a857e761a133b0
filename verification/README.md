# detoxrs

Tames problematic filenames: spaces and shell metacharacters replaced,
invisible and bidirectional control characters stripped, overlong names
truncated on grapheme boundaries. Preview by default; nothing is renamed until
`-x`, and every applying run writes an undo journal.

The library in `src/` is verified with Verus. It holds every decision the tool
makes; the binary in `app/` only reads directories, makes system calls and
prints.

- `classes`, `invisible`, `decode`, `policy`, `truncate`, `pipeline`: the
  transform of one name.
- `transform_laws`: why a name `transform` gives back is its own transform.
- `plan`, `plan_laws`, `order`: the collision planner and what it promises
  across a whole snapshot (no collision, no clobber, no sibling chain, order
  safety, determinism).
- `apply`, `fsops`: the apply loop as a step machine, the rename error
  taxonomy and the no-clobber rename ladder.
- `journal`: the records a batch writes, what a journal read back means, and
  batch naming.
- `report`, `escape_laws`: the preview, the closing report and the JSON
  document; escaping can be read back, so two names never render alike.
- `walk`, `dedupe`, `session`, `cli`: the walk's decisions, the per-run
  messages and exit codes, and the command line as plain data.
- `text`, `unicode`: character-level helpers and the trusted wrappers around
  unicode-normalization, unicode-segmentation and std.

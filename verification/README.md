# filetree

A verified model of a file-browser tree with git status decorations.

- `src/path.rs`: paths held as the bytes of their components (`FsPath`),
  with parsing, joining, parents and file names, specified over sequences
  of components.
- `src/text.rs`: character-level helpers (line splitting, trimming) used to
  read the output of git, and the conversions between text and bytes.
- `src/file_tree.rs`: directory nodes, sorted and filtered children, the
  shown (flattened) list, expanding, collapsing, refreshing and restoring the
  expanded state. Operations that need a directory's contents take a table of
  listings and report which directory still has to be read.
- `src/git_status.rs`: parsing of `git status --porcelain` output into a map
  from paths to statuses, and the statuses that directories inherit from the
  paths below them.
- `app/`: the filesystem and process side: it reads directories and runs git,
  and feeds what it reads to the library until an operation completes.

Every function in `src/` is verified by Verus against its contract, except
two trusted items in `src/text.rs` whose contracts are taken on trust: the
specification of `String::push` (it appends one character) and
`text_of_bytes`, which calls `String::from_utf8_lossy`. The laws that span
several operations stand in `src/` as proof functions named `law_*`.

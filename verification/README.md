# gli

`gli` (git-local-issue) is a distributed, offline-first issue tracker that
stores issues natively in Git under `refs/issues/*`. Every change is an
operation commit carrying its payload in Git trailers, a stable op-id and a
Lamport clock; an issue's state is the fold of its operation log (LWW
registers, OR-sets and a grow-only comment log).

## Layout

- `src/` is the library, verified with Verus:
  - `text`, `trailer`: characters, lines, and the subject/body/trailer layout
    of commit messages;
  - `model`: operations, the CRDT registers and the fold;
  - `wire`: writing an operation as a commit message and reading it back;
  - `laws`: the laws of the registers and of the fold;
  - `id`: UUIDv7 ids, actor slugs, display numbers and id resolution;
  - `git`: the `GitBackend` seam and the reading of `git` output;
  - `store`, `cache`, `fsck`: writing operations, folding every chain, and
    checking integrity;
  - `output`, `cli`: the JSON records, and what each command decides and
    prints.
- `app/` is the `gli` program: argument parsing, the backend that runs `git`,
  the editor, JSON serialisation and printing.
- `tests/` runs the library on concrete values, including an in-memory git.

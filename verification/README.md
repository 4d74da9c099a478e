# rust_git

A small version control system in the manner of Git, with its logic
verified by Verus.

Objects (blobs, trees, commits) are stored as JSON records under
`.git/objects`, named by the SHA-256 of their record. The staging area is
`.git/index`; branches are files under `.git/refs/heads`; `HEAD` names the
current branch or commit. Merging only fast-forwards.

Layout:

- `src/` — the verified library:
  - `text`, `assoc`: text primitives and association lists in `String` order;
  - `hashing`, `json`, `objects`: identifiers, records and objects;
  - `index`: the staging area; `tree`: the tree a commit records;
  - `store`: objects by identifier; `restore`: what a checkout does;
  - `history`: ancestry, `log`, merging; `refs`: `HEAD` and new commits;
  - `ignore`: `.gitignore`; `worktree`: `add` and `status`; `diff`;
  - `snapshot`: what checking out a commit gives back of what was committed.
- `app/` — the command-line program: reads and writes the repository and
  the working directory, and asks the library what to do.
- `tests/` — tests of the library on concrete values.

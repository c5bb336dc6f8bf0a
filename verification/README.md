# zpr_dev

The logic of the `zpr-dev` workspace tool, written in Verus and proved against
its contracts.

The centre is the Hermes configuration editor (`src/hermes.rs`): it adds the
workspace's shared skills directory to `skills.external_dirs` in
`~/.hermes/config.yaml` by rewriting only the bytes it must, refuses documents
it cannot edit safely, and checks every edit against the parsed documents
before handing it back. `src/laws.rs` proves what holds across calls: every
edit has passed that check; every byte outside the one stretch it rewrites
(the `external_dirs` key line, if any), line endings included, is kept, and a
missing final newline stays missing; a second run with the same path is a
no-op, for every path without a tab none of whose lines after the first is a
`---` document separator; the refusals are those `external_dirs` reports and
each names its remedy; and reverting a one-key edit, wherever it put the key,
gives back a document deep-equal to the original.

The workspace commands (`status`, `validate`, `setup`, `update`, `sync`,
`agent status`, `agent configure hermes`) contribute their decisions and
report lines (`src/status.rs`, `src/validate.rs`, `src/references.rs`,
`src/agent.rs`, `src/workspace.rs`); running git and touching the file system
happen outside the library.

- `src/` — the verified library.
- `tests/` — tests of the library on concrete values.
- `app/` — the file-system and environment side of the `agent` commands.

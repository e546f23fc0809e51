# tempkeys

Keep a temporary keyset on a Linux machine: send in a full set of secrets, use them
for a while, and have them become unrecoverable on their own. Each secret is its own
XChaCha20-Poly1305 file. Only the random encryption key is held by the kernel, in a
keyring, and when it is gone the files can no longer be decrypted.

The library in `src/` is verified with Verus. It holds the rules: what a keyset is, what
a file looks like, which scope a command uses, what is done in which order and what is
undone where a step fails. The program in `app/` makes the system calls, touches the
files and talks to the terminal.

## Layout

| Where | What |
| --- | --- |
| `src/parse.rs`, `src/input.rs` | keysets and single values from standard input |
| `src/vault.rs`, `src/seal.rs`, `src/secret.rs` | the file format, sealing and opening |
| `src/names.rs`, `src/ttl.rs`, `src/scope.rs` | names, durations, scopes and directories |
| `src/sys.rs`, `src/keyring.rs`, `src/errors.rs` | the kernel's key calls and their replies |
| `src/script.rs` | changes made step by step, and undone where one fails |
| `src/store.rs`, `src/load.rs` | storing, merging, setting and clearing |
| `src/read.rs`, `src/run.rs`, `src/list.rs`, `src/credential.rs` | the reading commands |
| `src/prune.rs`, `src/session.rs` | housekeeping and private sessions |
| `src/store_laws.rs`, `src/disk.rs`, `src/failure.rs` | what the scripts do and leave behind, also where they fail |
| `src/text.rs`, `src/order.rs` | text and sorting |

Properties of the whole are proof functions whose names begin with `law_`. What is taken
on trust from `chacha20poly1305`, `serde_json` and the standard library stands in
functions marked `external_body` and in `assume_specification` items, each with a comment
that says what it claims.

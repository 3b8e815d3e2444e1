# symmetry

Seal the `.env` files of a repository: each is encrypted to a `.enc`
sibling with XChaCha20-Poly1305, the key lives in the OS keychain (or is
derived from a password with Argon2id), and variables are injected into a
process at run time so plaintext never has to touch disk.

The library in `src/` is verified with Verus; `app/` is the command-line
program around it.

## Layout

- `src/crypto.rs` — sealing and opening, key derivation, and the armored
  text form of an encrypted file (`SYMMETRY v1`, headers, wrapped base64).
- `src/keystore.rs` — the keychain payload, storing and loading the key,
  and the per-invocation key source with its strict-mode gate.
- `src/paths.rs` — path components, normalization, `.enc` siblings, the
  location binding, resolving user paths and picking the nearest env file.
- `src/manifest.rs` — `symmetry.toml` as a value: project id, color
  preference and managed files.
- `src/envfile.rs`, `src/vars.rs` — dotenv parsing, the line edits behind
  `set` and `unset`, variable names and masked values.
- `src/commands.rs`, `src/setup.rs` — what each command decides: targets,
  decrypting and sealing entries, when a plaintext may be overwritten,
  status, the `.gitignore` block, key export/import/strict, and `init`.
- `src/scan.rs` — which files are env files, pruned directories, path order.
- `src/b64.rs`, `src/text.rs`, `src/auth.rs`, `src/cli.rs` — base64,
  character-level text helpers, user verification, and the command values.

Laws of the library are public proof functions named `law_*`.

# private_diary

The core of an encrypted desktop diary, verified with Verus.

- `src/crypto.rs`: Argon2id key derivation, XChaCha20-Poly1305 sealing of
  JSON fields and `.enc` files (`nonce ++ ciphertext ++ tag`), random keys.
- `src/vault.rs`: the vault layout, its records and the set of synced files.
- `src/commands.rs`: password set-up, unlocking and password change (the
  DEK/KEK scheme), the entry index, image names, plaintext backup, cloud
  settings, restore and the in-memory session key.
- `src/sync.rs`: the two-way sync planner (baseline, decisions, report).
- `src/webdav.rs`: WebDAV URLs, status handling and `PROPFIND` parsing.
- `src/text.rs`: string helpers the rest is written with.
- `app/`: file and network I/O, JSON, and the command layer around the library.

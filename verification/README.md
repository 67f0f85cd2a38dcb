# schlosser

A password and secret-file vault. A vault is an encrypted archive: a header holding the vault
key (encrypted under a key derived from the user's password with PBKDF2-HMAC-SHA256) and a
directory tree of password and secret-file entries stored in AES-256-GCM encrypted data blocks.

The library is written in Verus: its functions carry contracts that the verifier proves, except
the small trusted wrappers that call into `aes-gcm`, `pbkdf2`/`sha2`, `memsecurity` and `zeroize`,
whose contracts state what those crates do.

Layout:

- `src/crypt.rs`, `src/hmac.rs`: key derivation, authenticated encryption and HMAC codes, with
  the calls into `aes-gcm`, `pbkdf2`/`sha2` behind small trusted wrappers.
- `src/error.rs`: errors of the table-based archive.
- `src/vault/`: the block-based archive format — `utils.rs` (block ranges and sets, the header,
  the in-memory vault file, vault paths), `entry.rs` (password, secret-file and directory
  entries, their entry blocks), `entry/` (lookups and changes in the tree, listing order, the
  overview), `manager.rs` (the vault operations), `codec.rs` (byte encodings) and
  `properties.rs` (what lookups find after changes, and what reads give back after writes).
- `src/vault/table.rs` and `src/vault/table/`: the older table-based archive format, with its
  records, listing and manager.
- `app/`: the program around the library (files and the terminal).
- `tests/`: tests that build archives in memory and run the operations on them.

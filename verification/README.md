# crypt_dew_world

Decrypts and encrypts the LevelDB databases of Minecraft Bedrock worlds that
are protected with an eight-byte XOR key, recovers unknown keys, and gives an
overview of the chunks a world holds.

The library under `src/` is verified with Verus:

- `crypto` — the cipher (magic header, XOR key stream, default key) and key
  derivation from `MANIFEST`/`CURRENT`, with round-trip laws.
- `blocks` — block-wise encryption and decryption of whole files. The
  block engine's reading, per-block processing and in-order writing become
  `encrypt_blocks`/`decrypt_blocks` over a file's bytes (with `blocks_in`
  for the block count); opening, reading and writing files is done in `app/`.
- `ease_trojan` — key recovery by known plaintext: fragments, votes,
  candidate keys and their test against a sample table.
- `chunks` — varints, chunk keys, the scan of plain `.ldb` tables and the
  chunks that border them.
- `db` — database file names, the scan of the database directory and the
  integrity verdict.
- `cli`, `pack_mode` — the decisions of the command line: operations, keys
  in hexadecimal, output names and folders, the save selection menu.
- `update` — choice of the release asset and version comparison.
- `text` — byte-level string helpers used by the contracts.

`app/` is the command line program around the library: file system work,
terminal interaction, archives and the network.

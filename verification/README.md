# dtar — a deduplicating tar archiver, verified with Verus

dtar writes ordinary tar archives in which files with identical contents are
stored once; every further copy becomes a hard link to the stored one. A JSON
deduplication map, stored as the archive's last entry (`archive.ddm`), records
for each content hash the stored path and its hard-linked copies.

Layout:

- `src/` — the verified library.
  - `map.rs`: file information, the hexadecimal form of hashes, path
    sanitizing, the deduplication map and the archive's size accounting.
  - `hasher.rs`: SHA-256 hashing of chunked file contents (through `sha2`),
    the grouping of files by content (`FileMap`) and the laws that make the
    parallel fold/merge of file maps equal to one sequential grouping.
  - `archive.rs`: the plan of an archive (which entries, in which order, which
    are hard links or symbolic links, the deduplication map and the sizes),
    the path of the deduplication map, and the checks of an archive against
    its map.
  - `path.rs`: comparing paths component by component.
  - `cli.rs`, `error.rs`: the command line and the error type.
- `app/` — the program: argument parsing, directory walking, reading files,
  parallel hashing, writing and reading tar archives, JSON.
- `tests/` — tests of the library.

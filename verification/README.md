# asar_save

Reads and writes the archive format that game saves are stored in: a small
binary frame (magic number, header sizes, JSON size), a JSON header that lists
the files and their ranges, and the file data, all compressed with brotli.

- `src/` is the library, verified with Verus.
  - `asar.rs`: the header types and the per-game tables.
  - `bytes.rs`, `read.rs`: the frame, locating the JSON header and the data,
    and looking files up.
  - `write.rs`: planning an archive from a save (zip entries chosen, ordered
    and laid out, the header line of games that have one) and writing it.
  - `recompress.rs`: recompression of uploads and read progress.
  - `foreign.rs`: the calls into zip, flate2, brotli and std whose behaviour
    is taken on trust, with their contracts.
  - `laws.rs`: properties across functions, proved.
- `app/` is the command line tool and the glue that Verus does not see: the
  JSON encoding of the header (serde), files on disk, Node and WebAssembly.
- `tests/` runs the library against the real outside crates.

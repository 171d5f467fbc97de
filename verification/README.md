# bbf

Reading, writing and post-processing Bound Book Format (BBF) files, verified
with Verus.

A BBF file is a 64-byte header, the bytes of each distinct page image (each
aligned to 4096 bytes), the asset, page, section and metadata tables, a pool
of zero-terminated strings, and a 256-byte footer that says where each table
lies. A *petrified* file has its footer and tables moved right after the
header, so that a reader can show pages while the rest still downloads.

## Layout

- `src/` — the verified library.
  - `codec.rs`: little-endian integers in byte sequences.
  - `text.rs`: string comparison and decimal number parsing, and the standard-library
    string calls they rest on.
  - `format.rs`: media types and the fixed-size records, each with its byte encoding.
  - `hash.rs`: the XXH3 hashes, computed by `xxhash-rust`.
  - `reader.rs`: parsing a file held in memory (`BBFReader`).
  - `builder.rs`: building a file in memory (`BBFBuilder`), with laws on what a
    finished file reads back as.
  - `petrify.rs`: moving the index to the front, and the law that this keeps the book.
  - `streamer.rs`: reading a book as its bytes arrive.
  - `mux.rs`: the decisions of the `bbfmux` tool (sections from a manifest,
    `info`, `verify`, `extract`).
- `tests/` — tests of the library on concrete books.
- `app/` — the `bbfmux` command-line tool and the JavaScript bindings of the
  streaming reader: argument parsing, file I/O, logging and printing around
  the library.

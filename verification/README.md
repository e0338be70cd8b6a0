# tar

Building tar archives (GNU header layout), verified with Verus.

- `src/` is the library, every function of it verified:
  - `numeric.rs`: octal and base-256 numeric header fields;
  - `path.rs`: paths as byte strings, their components, and how a path is
    copied into a 100-byte header field;
  - `header.rs`: the 512-byte header block, its fields and its checksum;
  - `io.rs`: the byte sink an archive is written to and the byte source
    entry data is read from, with in-memory implementations;
  - `walk.rs`: the walk over a directory tree, as a state machine whose
    disk reads are left to the caller;
  - `builder.rs`: `Builder`, which writes entries, GNU long-name entries and
    the end-of-archive marker;
  - `reader.rs`: `BuilderReader`, `TarReader` and `EntryReader`, which read an
    archive out as a stream of bytes instead of writing it.
- `tests/` runs the library on concrete values.
- `app/` holds what touches the file system and `std::io`: a builder over any
  `std::io::Write`, the directory walk driven against the disk, and a
  `std::io::Read` over the archive stream.

# typed_path

Typed Unix and Windows paths that are parsed the same way on every platform, written in Verus
and verified.

- `src/parser.rs`: parser combinators over byte slices.
- `src/unix/`, `src/windows/`: the two encodings: their component parsers, components, pushing
  rules, prefixes (Windows), hashing (Unix) and the laws proved about them: how paths split into
  components (`parse_laws.rs`: repeated separators and `.` are ignored; `laws.rs`: a trailing
  separator is ignored, iterating from both ends agrees, pushing), what normalizing and
  absolutizing give (`laws.rs` for Unix, `normalize_laws.rs` for Windows), and what a path reads
  back after its extension is set (`extension_laws.rs` in each).
- `src/common/`: paths and path buffers generic over an encoding (`Path`, `PathBuf`, `Utf8Path`,
  `Utf8PathBuf`), iteration over components and ancestors, prefixes and suffixes, normalization,
  conversion between encodings, separators and single-component paths.
- `src/typed.rs`, `src/typed/`: paths whose encoding is decided by what they hold.
- `app/`: what depends on the platform the crate runs on: the platform encoding, the process's
  directories, absolutizing against the current directory, hashing with a `std` hasher and
  conversions to `std::path`.

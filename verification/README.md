# ncp_engine

An append-only vector that stores items, each with a fixed number of matcher
columns, in buckets of doubling size, together with the text handling that a
fuzzy finder matches against those columns: reduction of graphemes to single
characters and parsing of search patterns into atoms.

Layout:

- `src/location.rs`: the mapping of a flat index to its bucket and entry.
- `src/boxcar.rs`: the vector (`push`, `extend`, `get`, snapshots and their
  iterators).
- `src/utf32.rs`: strings stored one `char` per position.
- `src/canonicalize.rs`: grapheme-to-character reduction.
- `src/pattern.rs`: search-pattern parsing.
- `app/lib.rs`: the standard and `rayon` iterator traits over snapshots.

The library in `src/` is written in Verus; every function there carries a
contract that Verus proves, apart from the small wrappers around `std`,
`unicode-normalization` and `unicode-segmentation` calls, whose contracts are
stated in their doc comments.

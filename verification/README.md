# lucene_arrow

Lucene segments as typed columns, and columns as Lucene segments, with the
logic verified in Verus.

The library (`src/`) holds everything that decides or computes, but for the
floating-point distances between vectors:

- the file format: cursors, headers and footers (`cursor`, `framing`), packed
  integers (`direct`), document sets (`disi`), monotonic sequences
  (`monotonic`, with its floating-point results computed by integers in
  `ieee`), term dictionaries (`dict`, `terms`, `lexicon`);
- doc values: writing (`write`, `encode`, `file`), planning (`read`, `plan`),
  decoding (`column`), and ordinals across segments (`ordmap`);
- segments: field infos (`fnm`, `writer`), live documents (`liv`), norms
  (`norms`), empty stored fields (`stored`), the choice of a commit (`commit`)
  and its inventory (`segment`);
- jobs: read requests (`request`, `resolve`, `engine`, `scan`, `postings`,
  `hydrate`, `server`) and write jobs (`coercion`, `buffer`, `session`).

What is proved of several functions together stands in `roundtrip`,
`roundtrip_terms`, `roundtrip_fields`, `roundtrip_files`, `roundtrip_fnm`,
`roundtrip_session` and `roundtrip_segment`: what was written reads back, from
single entries up to whole segments of a write job. `layouts` says how the
layouts of field types relate, and `cuts` where the segments of a job are cut.

Every function states its result, including each error and when it comes,
over the spec functions next to it. The outside functions that are trusted are
`crc32fast::hash`, the LZ4 coders of `bearing` and `lz4_flex` (`lz4`), the
choice of the latest commit by `bearing` (`commit`), and `String::from_utf8`
(`text`).

`app/` is ordinary Rust: Arrow arrays, files on disk, JSON and the Flight
service. `tests/` runs the library, among others against the segments of an
independent Lucene writer.

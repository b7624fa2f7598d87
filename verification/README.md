# ptex

A verified reader for Disney's Ptex per-face texture file format.

- Header information: mesh type, data type (`uint8`, `uint16`, `float16`,
  `float32`), channels, alpha channel, border and edge filter modes
- Per-face resolution and adjacency information (`FaceInfo`)
- Full-resolution pixel data for every face, covering all on-disk encodings:
  constant, zip-compressed, difference-encoded and tiled faces
- Stored mipmap levels, plus computed reductions for resolutions that the file
  does not store
- Tile streaming: `tile_layout`, `tile_info`, `get_tile`, `get_tile_into`
- Shared reading: `SharedReader` is a cheaply clonable handle over one open
  file, with a byte-budgeted cache of decoded pixels
- Meta data, including large entries

Writing files and filtered sampling are out of scope. Edit records are not
applied: an edited file reads back in its pre-edit state, and `has_edits()`
says whether a file records an edit data block.

## What is proved

The functions of the library carry contracts, stated over the contents of the
stream and proved with Verus. `image.rs` says what a file holds: the image
of a face at a resolution (`face_of`), of a tile (`tile_of`), the layout of a
face (`layout_of`), a texel (`texel_of`), or the error that stands in their
place. Both readers return exactly that. `laws.rs`, `pixel_laws.rs` and the
modules themselves prove what follows: that tiles reassemble into the whole
face, that reading a texel agrees with reading its face, that the cache never
changes a result and never exceeds its budget.

The library does no I/O and no floating-point arithmetic. Whoever opens a file
hands it two functions: one returns the bytes at a position of the stream, the
other does one step of arithmetic on texel values. A stream is expected to
answer one question always alike, as an open file does that nobody changes.

Taken on trust are zlib decompression by `flate2`, the list of entries kept by
`lru`, and a handful of functions of the standard library; each is declared
with what is claimed of it, in `zlib.rs`, `recency.rs`, `cache.rs`,
`metadata.rs` and `error.rs`.

## Layout

- `src/types.rs`, `format.rs`, `error.rs`, `tile.rs`, `half.rs`: data types
- `src/texel.rs`, `paint.rs`, `place.rs`, `utils.rs`, `reduce.rs`,
  `ranking.rs`: pixels in buffers
- `src/zlib.rs`, `decode.rs`, `open.rs`, `file_info.rs`, `metadata.rs`: blocks
  and tables of a file
- `src/stream.rs`, `source.rs`, `image.rs`: an open file and what it holds
- `src/reader.rs`: `PtexReader`
- `src/recency.rs`, `cache.rs`, `shared.rs`: the cache and `SharedReader`
- `src/laws.rs`, `pixel_laws.rs`: properties of reading as a whole
- `app/`: readers over files, floating-point texel access, and the `ptxinfo`
  and `ptxtile` programs

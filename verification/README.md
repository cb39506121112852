# forge-subtitle

Subtitle decomposition into tiles: SRT and WebVTT files become tiles, tiles
are transformed (shifted, filtered, merged, split), and tiles become SRT or
WebVTT again. The library is written in Verus, and its functions in `src/`
are verified against their contracts, with three trusted items whose
contracts are taken on trust: the declaration of `uuid::Uuid`,
`new_tile_id` (a call of `Uuid::new_v4`, of which nothing is claimed), and
`string_from_chars` (std's `collect` of characters into a `String`).

A tile's metadata is a `Metadata`, a map from strings to strings kept as a
list of key-value pairs, in place of a `HashMap<String, String>`: vstd's
specification of `HashMap` says what it holds only for key types with a key
model, which `String` lacks, so nothing could be proved of such a map.

Layout of `src/`:

- `text.rs` — `trim`, `split`, `lines`, `split_whitespace`, `join` over characters.
- `number.rs` — reading unsigned integers as `str::parse` does; zero-padded decimals.
- `timestamp.rs` — `HH:MM:SS,mmm` / `HH:MM:SS.mmm` timestamps and timing lines.
- `tile.rs` — `SubtitleTile`, its `Metadata`, `SubFormat`.
- `format.rs` — what an SRT or WebVTT file holds, block by block.
- `transform.rs` — what shifting, filtering, merging, splitting and the span do.
- `decomposer.rs` — `SubtitleDecomposer`, the public operations.
- `laws.rs` — properties of the library as a whole, proved: written files read
  back into their tiles, merged tiles keep their text and gaps, and so on.

`app/` holds copies of the types with serde's derives, and `duration_seconds`
and `split_long`, whose results are computed in floating point: the span in
milliseconds, the pieces of text and the tiles built from them come from the
library (`duration_ms`, `split_long_text`, `split_tiles`).

# safari-binarycookies (verified)

A decoder for the Safari / WebKit `Cookies.binarycookies` cookie-jar format,
written in Verus.

- `src/format.rs` states the byte format as specifications (`decode_file`,
  `decode_page`, `decode_cookie`, ...), including which error each malformed
  input gives.
- `src/cursor.rs`, `src/decode.rs` and `src/iter.rs` are the executable
  decoder: `from_bytes` is proved to return exactly `decode_file`, and the lazy
  `cookies` stream is proved to yield `stream_items`.
- `src/laws.rs` proves that the lazy stream and the eager decoder agree, that
  the stream stops at its first error, and that counts and record sizes are
  capped, and bounds how many items the stream yields; `src/extent.rs`
  proves that bytes after the checksum are ignored, that every truncated file
  is rejected with `UnexpectedEof`, and that the page-size table, the offset
  tables and the checksum are stored but never used; `src/generated.rs`
  proves that a file built from one cookie's fields decodes to that cookie.
- `src/text.rs` holds the per-field string policies; `src/timestamp.rs` the
  clamp into the range of `time::OffsetDateTime`; `src/display.rs` the
  one-line rendering of a cookie.
- `app/` holds what Verus does not take: reader and file I/O, `Display`,
  `serde` and `thiserror` derives, std iterator impls, and the floating-point
  conversion of the on-disk `f64` timestamps.

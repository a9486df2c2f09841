# wc_rs

A `wc` (line, word, character, byte and display-width count) whose counting
logic is verified with Verus.

- `src/model.rs`: what each count is, as spec functions over the bytes read.
- `src/count.rs`: counting a whole buffer (`count_bytes`), UTF-8 decoding,
  display widths, and the `Counts` / `CountFlags` types.
- `src/reader.rs`: counting a stream chunk by chunk (`ReaderCounter`,
  `count_reader`); the counts are those of all the bytes read, however the
  reads split them.
- `src/report.rs`: column widths, how a named file is counted, and the text
  of a report line.
- `src/laws.rs`: properties across functions (bounds between counts,
  characters of valid UTF-8, decoding an encoded character, words byte by
  byte, widths of texts joined by a newline, totals, report fields).
- `src/boundary.rs`: the calls into `memchr`, `unicode-width` and std, with
  their trusted contracts.
- `app/main.rs`: the command line program (argument parsing, files, memory
  maps, threads, output).

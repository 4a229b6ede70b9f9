# sed

Line-based input and output of a stream editor, and its regular expressions, verified with Verus.

- `src/lines.rs`, `src/reader.rs`: the lines of mapped files and of streams.
- `src/chunk.rs`: chunks of data that are input and can be output.
- `src/output.rs`: output as a plan of steps, with adjacent mapped data joined.
- `src/pattern.rs`, `src/syntax.rs`: what a pattern asks of the engine that runs it, and its
  structure.
- `src/literal.rs`: plain string matching.
- `src/byte_engine.rs`, `src/fancy_engine.rs`: what is relied on of the `regex` and `fancy-regex`
  crates.
- `src/captures.rs`, `src/matcher.rs`: regular expressions, their matches and capture groups.
- `src/text.rs`, `src/error.rs`: text and errors.
- `app/`: files, streams and writers around the library.

# woman

`woman` shows man pages translated into the user's language by a large
language model, caching the translations as gzip files.  This crate holds its
logic as a Verus-verified library; the command-line program around it lives in
`app/`.

## Layout

- `src/text.rs` — the text model shared by the other modules: lines, trimming,
  searching, lowercase comparison, and the executable helpers proved against it.
- `src/translator.rs` — the roff post-processing: `.na` insertion after `.TH`,
  paragraph macros and tag lines; collapsing runs of blanks in text lines;
  breaking long CJK lines at punctuation; stripping Markdown code fences from
  model answers; the server-sent-events protocol of streamed answers; the
  request plan and the cache fix-up.
- `src/properties.rs` — laws over the roff functions: idempotence of `.na`
  insertion and of blank normalisation, where `.na` lands on a plain page,
  guarded headers and paragraphs, the width of broken ASCII lines, and that
  breaking and normalising keep the visible text.
- `src/gzip.rs` — decoding and encoding cached pages through flate2, with the
  round trip stated.
- `src/locale.rs`, `src/cli.rs`, `src/config.rs`, `src/models.rs`,
  `src/prompts.rs` — locale detection, command-line decisions, configuration
  defaults, the model-provider registry and the system prompt.
- `app/` — `main`, file and network I/O, environment lookups and the serde
  types, calling into the library.
- `tests/` — scenario tests run against the compiled library.

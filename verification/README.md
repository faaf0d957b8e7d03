# twitr

Cuts plain text into tweet-sized posts, from a file or from an interactive
session; the cut comes with machine-checked proofs of how it behaves.

## Layout

- `src/text.rs`: character-level operations on `Seq<char>` models and
  `Vec<char>` buffers: whitespace, trimming, lines, splitting, joining,
  replacing, decimal digits.
- `src/chunking.rs`: the cut itself. Marker lines (`---`) split the text into
  sections; each section is normalized and cut into bodies by paragraphs,
  sentences or lines, words and fixed-width pieces; the bodies are framed by
  the numbering prefix and the suffix. `chunk_text` is the entry point.
- `src/laws.rs`: no post is empty or longer than `max_chars`; every post is
  framed by its prefix and the suffix; long tokens lose no character.
- `src/settling.rs`: the search for the post count settles as soon as the
  digit count of its estimate repeats, and giving up after `SETTLE_ROUNDS`
  rounds is final.
- `src/content.rs`: no text is lost or made up, and blank text gives no posts.
- `src/composition.rs`: with numbering off, a marker line splits the posts
  into those of the text before it and those of the text after it.
- `src/idempotence.rs`: normalizing a section twice gives what normalizing it
  once gives, when line breaks are kept or paragraphs are separated by a
  blank line.
- `src/monotone.rs`: with paragraphs separated by a blank line, a larger
  `max_chars` never fails where a smaller one succeeded and never gives more
  posts, and the search for the post count always settles.
- `src/config.rs`, `src/output.rs`, `src/repl.rs`: configuration with its
  defaults, the result of a run and its rendering, and the decisions of the
  interactive session.
- `app/`: the command-line program around the library: arguments, reading the
  TOML configuration and the input, the session's terminal loop, logging.

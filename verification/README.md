# meetily

The core of a local meeting assistant, written and verified in Verus: it notices meetings, offers to record them,
tells the voices of a recording apart, and answers questions about what was said.

* `src/` is the verified library. Each function states in its contract what it returns; the properties of the
  library as a whole are public proof functions beside the functions that they are about.
  * `audio/meeting_detector.rs`: which app is a meeting app, and when a meeting starts and ends.
  * `audio/diarize/`: buffering segments, getting the voice model, labelling voices, refining a transcript.
  * `chat/retrieval.rs`, `chat/summary.rs`: building the corpus, ranked search, reading on demand.
  * `chat/agent.rs`: prompts, actions, citations, and the bounded loop of search, read and final answer.
  * `chat/commands.rs`: where a message goes and what is stored of it.
  * `meeting_nudge.rs`: when the overlay is shown, and what its buttons do.
  * `text.rs`, `order.rs`, `json.rs`, `clock.rs`, `ident.rs`, `ieee.rs`: what the rest is built on.
* `tests/` runs the library.
* `app/` is ordinary Rust around it: SQLite, the language model, floating-point measurements, windows, tasks.

What is taken on trust is marked `external_body`, `assume_specification` or `uninterp`, each with a comment that
says what is claimed: a few functions of std, `serde_json` parsing, `chrono` formatting, `regex` replacement and
`uuid` generation.

Floating-point numbers do not occur in the library. Where their order matters (scores, loudness, distances in
time), they come in by their bits, whose order `ieee.rs` describes.

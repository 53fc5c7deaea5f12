# rust_docs_bot

A Discord bot that searches the Rust Book, the Reference, Rust by Example
and the Rustonomicon, routes natural-language questions to the right source
(through an OpenAI-compatible endpoint, or by keywords), asks Context7 for
crate documentation, and pages long answers in embeds.

## Layout

- `src/` is the verified library (Verus). Every function carries a
  contract; the laws of the library are public proof functions.
  - `text.rs`: character-level string operations (trimming, splitting,
    case folding, UTF-8 lengths, decimal printing and parsing).
  - `docs.rs`: documentation sources, the `print.html` section walk
    (parsing through `tl`), slugs, and ranked search (fuzzy scores through
    `nucleo-matcher`).
  - `skills.rs`: the doc skills, their registry, keyword routing and the
    markdown of a hit.
  - `ai.rs`: reading the router model's JSON answer (through
    `serde_json`) and the routing decision.
  - `context7.rs`: Context7 cache keys, library choice and answer text.
  - `config.rs`: configuration from environment values.
  - `bot/`: slash command definitions, command plans, answers, chunking,
    embeds and pagination.
- `app/` is the program around the library: the Discord gateway and HTTP
  client, the network calls, the caches and `main`.
- `tests/` runs the library on concrete values.

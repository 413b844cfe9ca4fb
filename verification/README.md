# river_gateway

The gateway of a persistent agent: the parsers, indexes, policies and
formatters that decide what its harness does with a plain-text
workspace, verified with Verus.

## Layout

- `src/` — the verified library. Each module states its behaviour in
  `requires`/`ensures` over spec functions and views, and its laws as
  public proof functions named `law_*`.
  - `text`, `paths`, `frontmatter` — character-level text, path and
    frontmatter reading shared by every parser.
  - `record` — the turn record and the witness moves, indexed by turn.
  - `memory`, `graph`, `watch`, `sweep`, `segment`, `search` — the memory
    store's notes, link resolution, activation waves and flashes, which
    files it watches, what a sync sweep re-indexes, and segmentation.
  - `moments`, `tools` — moment files and the agent's tools' rules.
  - `policy`, `session`, `queue`, `preferences` — health policy,
    sessions, the message queue and preferences.
  - `subagent` — the registry of subagents the agent starts, their
    states, and when finished ones are forgotten.
  - `model`, `client` — the model seam: retries, reply reading, and the
    Anthropic message conversion.
  - `shape`, `spectator` — the shape gloss worker's decisions and the
    spectator's sweeps, moves and moments.
  - `redis`, `embedding` — configuration and key naming of the outside
    stores.
- `tests/` — tests of the library on concrete values.
- `app/` — the command line around the library: file I/O, serde shapes of
  the library's values, and floating-point arithmetic.

Trusted items — calls into `std`, `chrono`, `chrono-tz`, `jiff`, `ulid`,
`sha2`, `regex` and `serde_json` — are marked `#[verifier::external_body]`
and documented where they stand; results too involved to state are named
by uninterpreted spec functions.

# Open World

The core of a simulation server in which a language model plays the entities of
a world, written in Rust and verified with Verus.

- `src/` is the library. Every function in it has a contract that Verus proves:
  parsing and repairing the model's answers, routing and applying effects, the
  rules for tags and stats, the history of an entity and the editing of its
  summary, what an entity is told of the actions of others, the limiter of
  calls, the scheduler's choice and its cycle, logs, the environment file, and
  the world with its entities and events.
- `tests/` runs the library on concrete values.
- `app/` is the server around it: HTTP endpoints, files, clocks, and arithmetic
  with doubles.

## Conventions

- Texts are sequences of characters in contracts, and properties are maps.
- Doubles are held as their bit patterns. Bounds and comparisons on them are
  proved; sums and scaled values are handed in by the caller.
- Points in time are handed in as well, so that what a function does at a given
  time is part of its contract.
- What only another crate can compute stands behind a small function marked
  `external_body`, whose doc comment says what is relied on: JSON (`json`),
  regular expressions (`llm_response`), identifiers (`ids`), percent-encoding
  (`llm_reply`), random draws (`scheduler`), and what the standard library knows
  of Unicode (`text`).
- Public proof functions whose names begin with `law_` state what holds of the
  library as a whole.

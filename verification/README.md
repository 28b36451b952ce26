# freecut

Dimension notation and project files of the Freecut cut-list optimizer, as a
library verified with Verus.

- `src/dim/` — dimensions in milli-units: parsing user text (decimals with `.`
  or `,`, fractions, mixed numerals) exactly, with halves rounded up, and
  formatting milli-units back to text. `digits.rs` holds the exact decimal
  arithmetic, `notation.rs` the character-level grammar, `value.rs` the value of
  a text, `laws.rs` properties proved of parsing and formatting together.
- `src/project_io.rs` — project file versions, migration of version 1 and 2
  documents to milli-units, and error messages; JSON is parsed with
  `serde_json`.
- `src/domain.rs`, `src/optimizer.rs` — the project model.
- `app/` — file I/O, serde forms of the model, and the `f64` conversions.

# synapse_core

The verified core of Synapse, a local-first spaced-repetition trainer: the
domain model (memory items, card content, review history), the SM-2
scheduler and the decision half of FSRS-6, statistics and streaks, the
knowledge graph of linked memories, gamification, review sessions and
imports, settings and window-state defaults, backup naming and rotation, and
image-asset naming. Every function in `src/` carries a Verus contract and is
proved against it; the laws of the library (what a review records, what
linking and unlinking do, which backups survive rotation, ...) are public
proof functions beside the code they speak of.

Layout:

- `src/` — the verified library (Verus).
- `tests/` — ordinary Rust tests that run the library with the real
  outside crates linked.
- `app/` — a thin command-line shell around the library: JSON files on
  disk, backups and asset copies, the FSRS floating-point formulas and the
  forgetting-curve projection, and the commands the UI invokes.

Instants are milliseconds since the Unix epoch (UTC), calendar days are days
since 1970-01-01, the SM-2 ease factor is kept in hundredths (2.5 is 250),
and FSRS difficulty and stability travel as the bit patterns of their
binary64 values.

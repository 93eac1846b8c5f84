# study-engine

A local-first spaced-repetition study engine: question banks, their
validation and answer-letter reshuffling, study-session planning, progress
aggregation, review bookkeeping and the group-study room state machine.

- `src/` is the verified core, written in Verus. Every public function states
  in its contract what it returns (for a random result, what holds of every
  outcome); the laws that relate several functions
  (the round-robin interleave only reorders, validation accepts exactly the
  banks that meet the rules, an ended group room is final, the study plan and
  the dashboard agree, ...) are public proof functions.
- `app/` is the `study-engine` program around it: the command line, the
  terminal prompts, SQLite storage, the HTTP API and the FSRS scheduler
  (floating point), converting between the wire formats and the library's
  types.
- `tests/` runs the library on concrete inputs.

# sudoku

A Sudoku library whose behaviour is stated in `requires` / `ensures`
contracts and proved with Verus, plus a small command-line program around it.

## Layout

- `src/board.rs` — digits, digit sets and the 9×9 board; the board's view is a
  sequence of 81 optional digits, read row by row.
- `src/rules.rs` — the rules (rows, columns, boxes, knight's move,
  thermometers), each with a spec predicate `ok_at` per cell; a rule set's
  `check` holds exactly when every cell passes `check_one`. Laws: rules are
  monotone (removing digits never breaks them) and local (writing a cell only
  affects that cell's verdicts).
- `src/description.rs` — plain descriptions of a game (board numbers, which
  rules apply) and their conversion to boards and rule sets.
- `src/arbiter.rs` — the referee: applies a solver's move and reports the
  outcome; its contract states the outcome exactly.
- `src/solver/` — the `Solver` trait, a backtracking search (first solution in
  reading order, and solution counting), a constraint-propagation solver, and
  `solve` / `verify`. The constraint solver's depth-limited search is
  described by `gave_up` and `stuck`: it gives up on a board only where it
  reached a grid that keeps all the board's solutions, with options narrowed
  from the board's, on which narrowing stalls and every guess within the
  depth limit is inconclusive.
- `src/optimized.rs` — solving, verifying and minimality checks under the
  standard rules, with `lemma_minimal_standard` stating minimality by
  solution counts.
- `tests/` — scenario tests.
- `app/` — the command-line program: argument parsing, reading a game from a
  TOML file, interactive play, printing.

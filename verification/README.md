# bullpen

Bullpen ("star battle") puzzles: an n x n grid split into n regions, to be
filled with `k` bulls per row, column and region, no two bulls touching,
not even diagonally. The library solves such puzzles with dancing links and
generates puzzles with exactly one solution. Its logic is verified with
Verus; the only trusted items are two thin wrappers around the `fastrand`
generator (`rand_usize`, `rand_shuffle` in `src/gen_single.rs`) and the
declaration of its `Rng` type.

## Layout

- `src/board.rs` — boards, solutions (`is_solution_k`) and bull counts.
- `src/llist.rs`, `src/matrix.rs`, `src/cover.rs`, `src/place.rs` — the
  dancing-links tables, covering and uncovering columns and rows (an
  uncover restores exactly what a cover removed).
- `src/solver.rs` — `BullpenSolver`, one bull per line and region: every
  listed solution is a solution, no two are the same, and `solve` lists two
  when there are two or more, else all of them; the budgeted `solve_within`
  promises that last part only when it did not give up.
- `src/double.rs`, `src/double_count.rs` — `DoubleSolver`, `k` bulls per line
  and region, with the same guarantees.
- `src/matching.rs`, `src/transport.rs` — the generators' cheap solvability
  filters: a perfect matching test (exact) and a max-flow test (exact: it
  accepts exactly when a transport of `k` bulls fits); every solvable board
  passes both.
- `src/regions.rs`, `src/grid.rs`, `src/connect.rs` — growing random regions
  and the one-cell repair edit; regions stay connected, the edit keeps one
  known solution and kills another.
- `src/genpenai.rs`, `src/gen_single.rs`, `src/gendoubleai.rs` — the
  generators; a board a `roll` returns has exactly one solution, and
  `generate` / `GenPen::gen` reroll until a roll succeeds, so every n x n
  board they return has exactly one solution (after `u64::MAX - 1` failed
  rolls they give up and return an empty grid).
- `src/rng.rs` — SplitMix64 and the `Dice` interface the generators draw from.
- `src/render.rs` — the matrix as text.
- `app/` — the command-line demo and the web entry point.

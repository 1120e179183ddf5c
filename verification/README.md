# shapeshifter

A solver and puzzle generator for Shapeshifter, the placement puzzle in which
every piece lowers the cells it covers by one, modulo the board's number of
symbols, until the whole board reads zero.

The library is written in Verus: each public function carries a contract over
a mathematical model of the board (a 15-column grid of cells, each a value
below the modulus), of pieces (bitboard shapes) and of placements, and Verus
proves the code against it.

## Layout

| Path | Contents |
| --- | --- |
| `src/model/` | Bitboard, board, piece and coverage-counter types with their views and laws. |
| `src/bitboard.rs`, `src/piece.rs`, `src/bits.rs` | A bitboard with public limbs and the piece type over it, with the line measures used by line-based pruning. |
| `src/game.rs`, `src/puzzle.rs`, `src/level.rs`, `src/text.rs` | Games, puzzle descriptions, level lists and their text forms. |
| `src/page.rs`, `src/page_bytes.rs`, `src/page_icons.rs`, `src/page_puzzle.rs` | A saved game page read as a puzzle: shapes, icon cycle, board and level. |
| `src/generate.rs`, `src/random.rs` | Puzzle generation from drawn shapes and positions; the seeded generator behind it. |
| `src/solver/` | Search preparation, ranking of placements, the backtracking search and the pruning bounds (`prune/`, `pruning/`). |
| `tests/` | Integration tests on concrete puzzles. |
| `app/` | The command-line program: reading puzzles, printing solutions. |

## What is proved

- Every solution the search returns solves the board it was given.
- The search misses no solution that passes its bounds at every depth: `solve`
  returns none only when, at every Monte Carlo level, no solution does; games
  made only of single-cell pieces are solved exactly when they can be. Whether
  a solvable game always passes the sampled bounds is not claimed.
- The Monte Carlo levels are built from the peaks of forward and reverse
  random trajectories on the board, as their tables say, and their final hit
  thresholds strictly increase from level to level, each at most 31.
- A board that some placement of the pieces solves has a deficit no larger
  than the pieces' cells, short of them by whole turns of the modulus: the
  cell budget the total-deficit bound compares against the deficit never
  rejects a state that the pieces still to place can finish.
- The other bounds never cut off a state that the pieces still to place can
  finish (a choice of one listed placement per remaining piece that leaves
  every cell at zero): the cell-interval, region-budget, partition and parity,
  corner-region (cell-set) and jaggedness bounds each have a law saying so.
  The line-family bounds and the total-deficit bound's isolated-cell tests
  are proved to compute their values as stated, not to be sound.
- Generated games are the solved board with each drawn placement undone.
- Reading a saved game page takes the shape tables of the active and queued
  shape sections, with the table, row and cell matches of the page's regular
  expressions named rather than restated.
